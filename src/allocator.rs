//! A quadtree-based texture allocator.
//!
//! Atlas pages are square, with a power-of-two side. Each allocation is a
//! square block whose side is a power of two, aligned to its own side. A page
//! is modelled by the set of blocks it has handed out, each written as
//! `(x, y, side)`; the quadtree that holds them is in `quadtree`.

use vstd::prelude::*;
use crate::gpu_data::PaintPageId;
use pathfinder_content::render_target::RenderTargetId;
use crate::geometry::{
    is_pow2, is_next_pow2, lemma_next_pow2, lemma_pow2_divides, next_pow2, next_power_of_two, RectI,
    Vector2I,
};
use crate::quadtree::{
    block_within, blocks_overlap, first_free, has_free_block, lemma_first_free_empty, Block,
    TreeNode, MAX_ATLAS_LENGTH,
};

verus! {

/// Declares `pathfinder_content::render_target::RenderTargetId`, the render
/// target that a render-target page draws to. The allocator stores and hands
/// back values of it and relies on nothing about what they hold.
#[verifier::external_type_specification]
#[verifier::external_body]
pub struct ExRenderTargetId(RenderTargetId);

/// The side of a new atlas page.
pub const ATLAS_TEXTURE_LENGTH: u32 = 1024;

/// A square atlas page that hands out power-of-two blocks from a quadtree.
#[derive(Debug)]
pub struct TextureAtlasAllocator {
    root: TreeNode,
    size: u32,
}

/// The side of the block that serves a request of the given size: the least
/// power of two at or above its larger component.
pub open spec fn block_side(requested_size: Vector2I) -> int {
    next_pow2(
        if requested_size.x >= requested_size.y {
            requested_size.x as int
        } else {
            requested_size.y as int
        },
    )
}

/// The block that a rectangle covers, read by its origin and width.
pub open spec fn rect_block(rect: RectI) -> Block {
    (rect.origin.x as int, rect.origin.y as int, rect.size.x as int)
}

impl TextureAtlasAllocator {
    /// The side of the page.
    pub closed spec fn length(self) -> int {
        self.size as int
    }

    /// The blocks handed out and not yet returned.
    pub closed spec fn view(self) -> Set<Block> {
        self.root.blocks(0, 0, self.size as int)
    }

    pub closed spec fn wf(self) -> bool {
        &&& is_pow2(self.size as int)
        &&& self.size <= MAX_ATLAS_LENGTH
        &&& self.root.wf(self.size as int)
    }

    /// The tree places blocks where `first_free` says, which depends on the
    /// blocks handed out alone.
    proof fn lemma_placement(self, req: int)
        requires
            self.wf(),
            is_pow2(req),
        ensures
            self.root.first_fit(0, 0, self.size as int, req) == first_free(
                self@,
                0,
                0,
                self.length(),
                req,
            ),
    {
        self.root.lemma_first_fit_is_first_free(self@, 0, 0, self.size as int, req);
    }

    /// An empty page of the default side.
    pub fn new() -> (r: TextureAtlasAllocator)
        ensures
            r.wf(),
            r.length() == ATLAS_TEXTURE_LENGTH,
            r@ == Set::<Block>::empty(),
    {
        proof {
            reveal_with_fuel(is_pow2, 11);
        }
        TextureAtlasAllocator::with_length(ATLAS_TEXTURE_LENGTH)
    }

    /// An empty page of side `length`.
    pub fn with_length(length: u32) -> (r: TextureAtlasAllocator)
        requires
            is_pow2(length as int),
            length <= MAX_ATLAS_LENGTH,
        ensures
            r.wf(),
            r.length() == length,
            r@ == Set::<Block>::empty(),
    {
        TextureAtlasAllocator { root: TreeNode::EmptyLeaf, size: length }
    }

    /// The side of the page.
    pub fn size(&self) -> (r: u32)
        ensures
            r == self.length(),
    {
        self.size
    }

    /// Places a block for `requested_size` at the first free place, if any.
    pub fn allocate(&mut self, requested_size: Vector2I) -> (r: Option<RectI>)
        requires
            old(self).wf(),
            requested_size.x >= 0 || requested_size.y >= 0,
        ensures
            final(self).wf(),
            final(self).length() == old(self).length(),
            r is Some <==> has_free_block(old(self)@, old(self).length(), block_side(requested_size)),
            match r {
                Some(rect) => {
                    &&& first_free(old(self)@, 0, 0, old(self).length(), block_side(requested_size)) == Some(
                        (rect.origin.x as int, rect.origin.y as int),
                    )
                    &&& rect.size.x == block_side(requested_size)
                    &&& rect.size.y == block_side(requested_size)
                    &&& final(self)@ == old(self)@.insert(rect_block(rect))
                    &&& block_within(rect_block(rect), 0, 0, old(self).length())
                    &&& (rect.origin.x as int) % block_side(requested_size) == 0
                    &&& (rect.origin.y as int) % block_side(requested_size) == 0
                    &&& forall|e: Block| #[trigger]
                        old(self)@.contains(e) ==> !blocks_overlap(rect_block(rect), e)
                },
                None => {
                    &&& first_free(old(self)@, 0, 0, old(self).length(), block_side(requested_size)) is None
                    &&& *final(self) == *old(self)
                },
            },
    {
        let longest = if requested_size.x >= requested_size.y {
            requested_size.x
        } else {
            requested_size.y
        };
        let requested_length = next_power_of_two(longest as u32);
        let r = self.root.allocate(Vector2I::zero(), self.size, requested_length);
        proof {
            old(self).lemma_placement(requested_length as int);
            old(self).lemma_fit_iff_room(requested_length as int);
            if r is Some {
                old(self).root.lemma_first_fit_free(0, 0, self.size as int, requested_length as int);
            }
        }
        r
    }

    /// The page finds a place for a block of side `req` exactly when it has an
    /// aligned free square of that side.
    pub proof fn lemma_fit_iff_room(self, req: int)
        requires
            self.wf(),
            is_pow2(req),
        ensures
            first_free(self@, 0, 0, self.length(), req) is Some <==> has_free_block(
                self@,
                self.length(),
                req,
            ),
    {
        let len = self.size as int;
        self.lemma_placement(req);
        if self.root.first_fit(0, 0, len, req) is Some {
            self.root.lemma_first_fit_free(0, 0, len, req);
            let (fx, fy) = self.root.first_fit(0, 0, len, req).unwrap();
            assert(block_within((fx, fy, req), 0, 0, len));
        } else if has_free_block(self@, len, req) {
            let (bx, by) = choose|bx: int, by: int|
                #![trigger block_within((bx, by, req), 0, 0, len)]
                bx % req == 0 && by % req == 0 && block_within((bx, by, req), 0, 0, len) && forall|
                    e: Block,
                | #[trigger] self@.contains(e) ==> !blocks_overlap((bx, by, req), e);
            self.root.lemma_first_fit_complete(0, 0, len, req, bx, by);
        }
    }

    /// Returns an allocated block to the page.
    pub fn free(&mut self, rect: RectI)
        requires
            old(self).wf(),
            old(self)@.contains(rect_block(rect)),
        ensures
            final(self).wf(),
            final(self).length() == old(self).length(),
            final(self)@ == old(self)@.remove(rect_block(rect)),
    {
        proof {
            self.root.lemma_blocks_within(0, 0, self.size as int, rect_block(rect));
        }
        let requested_length = rect.size.x as u32;
        self.root.free(Vector2I::zero(), self.size, rect.origin, requested_length)
    }

    /// Whether the page has no block handed out.
    pub fn is_empty(&self) -> (r: bool)
        requires
            self.wf(),
        ensures
            r == (self@ == Set::<Block>::empty()),
    {
        proof {
            self.root.lemma_empty_iff_leaf(0, 0, self.size as int);
        }
        self.root.is_empty()
    }
}

/// Where a texture was placed: its page and its rectangle on that page.
#[derive(Clone, Copy, Debug, PartialEq, Eq, Structural)]
pub struct TextureLocation {
    pub page: PaintPageId,
    pub rect: RectI,
}

/// One page of texture memory.
#[derive(Debug)]
pub enum TexturePageAllocator {
    /// An atlas allocated with the quadtree allocator.
    Atlas(TextureAtlasAllocator),
    /// A single image.
    Image { size: Vector2I },
    /// A render target.
    RenderTarget { size: Vector2I, id: RenderTargetId },
}

/// Where a block of side `req` would be placed on `page` next, if it is an
/// atlas with room for one.
pub open spec fn page_fit(page: TexturePageAllocator, req: int) -> Option<(int, int)> {
    match page {
        TexturePageAllocator::Atlas(a) => first_free(a@, 0, 0, a.length(), req),
        _ => None,
    }
}

/// Whether `page` is an atlas with a free aligned square of side `req`.
pub open spec fn page_has_room(page: TexturePageAllocator, req: int) -> bool {
    match page {
        TexturePageAllocator::Atlas(a) => has_free_block(a@, a.length(), req),
        _ => false,
    }
}

/// The blocks handed out on `page`; none on a page that is not an atlas.
pub open spec fn page_blocks(page: TexturePageAllocator) -> Set<Block> {
    match page {
        TexturePageAllocator::Atlas(a) => a@,
        _ => Set::empty(),
    }
}

/// The size of `page` in texels.
pub open spec fn page_extent(page: TexturePageAllocator) -> (int, int) {
    match page {
        TexturePageAllocator::Atlas(a) => (a.length(), a.length()),
        TexturePageAllocator::Image { size } => (size.x as int, size.y as int),
        TexturePageAllocator::RenderTarget { size, .. } => (size.x as int, size.y as int),
    }
}

/// A rectangle at the origin of its page.
pub open spec fn at_origin(rect: RectI, size: Vector2I) -> bool {
    rect.origin.x == 0 && rect.origin.y == 0 && rect.size == size
}

/// Places textures on pages: small ones in shared atlases, large ones and
/// render targets on pages of their own. Pages are only ever appended.
#[derive(Debug)]
pub struct TextureAllocator {
    pages: Vec<TexturePageAllocator>,
    atlas_length: u32,
}

impl TextureAllocator {
    /// The pages, in the order they were added.
    pub closed spec fn pages(self) -> Seq<TexturePageAllocator> {
        self.pages@
    }

    /// The side of each atlas page; larger requests get a page of their own.
    pub closed spec fn atlas_length(self) -> int {
        self.atlas_length as int
    }

    /// Every atlas page is well formed and has the allocator's atlas side.
    pub open spec fn wf(self) -> bool {
        &&& is_pow2(self.atlas_length())
        &&& self.atlas_length() <= MAX_ATLAS_LENGTH
        &&& self.pages().len() <= u32::MAX
        &&& forall|i: int|
            0 <= i < self.pages().len() && (#[trigger] self.pages()[i]) is Atlas ==> {
                &&& self.pages()[i]->Atlas_0.wf()
                &&& self.pages()[i]->Atlas_0.length() == self.atlas_length()
            }
    }

    /// An allocator with no pages, whose atlases have the default side.
    pub fn new() -> (r: TextureAllocator)
        ensures
            r.wf(),
            r.pages() == Seq::<TexturePageAllocator>::empty(),
            r.atlas_length() == ATLAS_TEXTURE_LENGTH,
    {
        proof {
            reveal_with_fuel(is_pow2, 11);
        }
        TextureAllocator::with_atlas_length(ATLAS_TEXTURE_LENGTH)
    }

    /// An allocator with no pages, whose atlases have side `length`.
    pub fn with_atlas_length(length: u32) -> (r: TextureAllocator)
        requires
            is_pow2(length as int),
            length <= MAX_ATLAS_LENGTH,
        ensures
            r.wf(),
            r.pages() == Seq::<TexturePageAllocator>::empty(),
            r.atlas_length() == length,
    {
        TextureAllocator { pages: Vec::new(), atlas_length: length }
    }

    /// Places a texture of `requested_size`. One larger than an atlas in
    /// either direction gets an image page of its own. Any other gets a block
    /// on the first atlas page with room for it, or on a new atlas page.
    pub fn allocate(&mut self, requested_size: Vector2I) -> (r: TextureLocation)
        requires
            old(self).wf(),
            old(self).pages().len() < u32::MAX,
            requested_size.x >= 0 || requested_size.y >= 0,
        ensures
            final(self).wf(),
            final(self).atlas_length() == old(self).atlas_length(),
            if requested_size.x > old(self).atlas_length() || requested_size.y > old(
                self,
            ).atlas_length() {
                &&& r.page.0 == old(self).pages().len()
                &&& at_origin(r.rect, requested_size)
                &&& final(self).pages() == old(self).pages().push(
                    TexturePageAllocator::Image { size: requested_size },
                )
            } else {
                let req = block_side(requested_size);
                let p = r.page.0 as int;
                let n = old(self).pages().len();
                &&& p <= n
                &&& forall|q: int| 0 <= q < p ==> page_fit(#[trigger] old(self).pages()[q], req) is None
                &&& forall|q: int| 0 <= q < p ==> !page_has_room(#[trigger] old(self).pages()[q], req)
                &&& p < n ==> page_has_room(old(self).pages()[p], req)
                &&& r.rect.size.x == req
                &&& r.rect.size.y == req
                &&& p < n ==> page_fit(old(self).pages()[p], req) == Some(
                    (r.rect.origin.x as int, r.rect.origin.y as int),
                )
                &&& p < n ==> final(self).pages().len() == n
                &&& p == n ==> r.rect.origin.x == 0 && r.rect.origin.y == 0
                    && final(self).pages().len() == n + 1
                &&& forall|q: int| 0 <= q < n && q != p ==> #[trigger] final(self).pages()[q] == old(self).pages()[q]
                &&& final(self).pages()[p] is Atlas
                &&& page_extent(final(self).pages()[p]) == (
                    old(self).atlas_length(),
                    old(self).atlas_length(),
                )
                &&& p < n ==> forall|e: Block| #[trigger]
                    page_blocks(old(self).pages()[p]).contains(e) ==> !blocks_overlap(
                        rect_block(r.rect),
                        e,
                    )
                &&& page_blocks(final(self).pages()[p]) == (if p < n {
                    page_blocks(old(self).pages()[p])
                } else {
                    Set::<Block>::empty()
                }).insert(rect_block(r.rect))
            },
    {
        if requested_size.x > self.atlas_length as i32 || requested_size.y > self.atlas_length as i32 {
            return self.allocate_image(requested_size);
        }
        let ghost req = block_side(requested_size);
        proof {
            let n = if requested_size.x >= requested_size.y {
                requested_size.x as int
            } else {
                requested_size.y as int
            };
            lemma_next_pow2(n);
            lemma_pow2_at_most(n, req, self.atlas_length as int);
        }
        let mut i: usize = 0;
        while i < self.pages.len()
            invariant
                self.wf(),
                self.pages@ == old(self).pages@,
                self.atlas_length == old(self).atlas_length,
                old(self).pages().len() < u32::MAX,
                1 <= req <= self.atlas_length,
                requested_size.x <= self.atlas_length,
                requested_size.y <= self.atlas_length,
                req == block_side(requested_size),
                requested_size.x >= 0 || requested_size.y >= 0,
                i <= self.pages@.len(),
                forall|q: int| 0 <= q < i ==> page_fit(#[trigger] self.pages@[q], req) is None,
            decreases self.pages@.len() - i,
        {
            let ghost before = self.pages@[i as int];
            let found = match &mut self.pages[i] {
                TexturePageAllocator::Atlas(allocator) => allocator.allocate(requested_size),
                _ => None,
            };
            if let Some(rect) = found {
                proof {
                    assert(self.pages@ == old(self).pages@.update(i as int, self.pages@[i as int]));
                    assert(page_fit(before, req) == Some((rect.origin.x as int, rect.origin.y as int)));
                    assert forall|q: int|
                        0 <= q < self.pages@.len() && (#[trigger] self.pages@[q]) is Atlas implies {
                        &&& self.pages@[q]->Atlas_0.wf()
                        &&& self.pages@[q]->Atlas_0.length() == self.atlas_length
                    } by {
                        if q != i {
                            assert(self.pages@[q] == old(self).pages@[q]);
                        }
                    }
                }
                proof {
                    assert forall|q: int| 0 <= q < i implies page_fit(
                        #[trigger] old(self).pages()[q],
                        req,
                    ) is None by {
                        assert(old(self).pages()[q] == old(self).pages@[q]);
                    }
                    assert(page_blocks(self.pages@[i as int]) == page_blocks(before).insert(
                        rect_block(rect),
                    ));
                    lemma_pow2_of_block_side(requested_size);
                    old(self).lemma_no_room_before(i as int, req);
                    before->Atlas_0.lemma_fit_iff_room(req);
                }
                return TextureLocation { page: PaintPageId(i as u32), rect };
            }
            proof {
                assert(self.pages@ =~= old(self).pages@);
            }
            i += 1;
        }
        proof {
            lemma_pow2_of_block_side(requested_size);
            old(self).lemma_no_room_before(self.pages@.len() as int, req);
        }
        let page = PaintPageId(self.pages.len() as u32);
        let mut allocator = TextureAtlasAllocator::with_length(self.atlas_length);
        proof {
            lemma_first_free_empty(allocator@, 0, 0, allocator.length(), req);
        }
        let rect = allocator.allocate(requested_size).unwrap();
        self.pages.push(TexturePageAllocator::Atlas(allocator));
        TextureLocation { page, rect }
    }

    /// Pages before `p` with no place for a block of side `req` have no room
    /// for one.
    proof fn lemma_no_room_before(self, p: int, req: int)
        requires
            self.wf(),
            is_pow2(req),
            p <= self.pages@.len(),
            forall|q: int| 0 <= q < p ==> page_fit(#[trigger] self.pages@[q], req) is None,
        ensures
            forall|q: int| 0 <= q < p ==> !page_has_room(#[trigger] self.pages()[q], req),
    {
        assert forall|q: int| 0 <= q < p implies !page_has_room(#[trigger] self.pages()[q], req) by {
            assert(page_fit(self.pages@[q], req) is None);
            if self.pages@[q] is Atlas {
                self.pages@[q]->Atlas_0.lemma_fit_iff_room(req);
            }
        }
    }

    fn allocate_image(&mut self, requested_size: Vector2I) -> (r: TextureLocation)
        requires
            old(self).wf(),
            old(self).pages().len() < u32::MAX,
        ensures
            final(self).wf(),
            final(self).atlas_length() == old(self).atlas_length(),
            r.page.0 == old(self).pages().len(),
            at_origin(r.rect, requested_size),
            final(self).pages() == old(self).pages().push(
                TexturePageAllocator::Image { size: requested_size },
            ),
    {
        let page = PaintPageId(self.pages.len() as u32);
        let rect = RectI::new(Vector2I::zero(), requested_size);
        self.pages.push(TexturePageAllocator::Image { size: rect.size });
        TextureLocation { page, rect }
    }

    /// Gives a render target a page of its own.
    pub fn allocate_render_target(&mut self, requested_size: Vector2I, id: RenderTargetId) -> (r:
        TextureLocation)
        requires
            old(self).wf(),
            old(self).pages().len() < u32::MAX,
        ensures
            final(self).wf(),
            final(self).atlas_length() == old(self).atlas_length(),
            r.page.0 == old(self).pages().len(),
            at_origin(r.rect, requested_size),
            final(self).pages() == old(self).pages().push(
                TexturePageAllocator::RenderTarget { size: requested_size, id },
            ),
    {
        let page = PaintPageId(self.pages.len() as u32);
        let rect = RectI::new(Vector2I::zero(), requested_size);
        self.pages.push(TexturePageAllocator::RenderTarget { size: rect.size, id });
        TextureLocation { page, rect }
    }

    /// The size of a page in texels.
    pub fn page_size(&self, page_index: PaintPageId) -> (r: Vector2I)
        requires
            self.wf(),
            page_index.0 < self.pages().len(),
        ensures
            (r.x as int, r.y as int) == page_extent(self.pages()[page_index.0 as int]),
    {
        match &self.pages[page_index.0 as usize] {
            TexturePageAllocator::Atlas(atlas) => Vector2I::splat(atlas.size() as i32),
            TexturePageAllocator::Image { size } => *size,
            TexturePageAllocator::RenderTarget { size, .. } => *size,
        }
    }

    /// The number of pages.
    pub fn page_count(&self) -> (r: u32)
        requires
            self.wf(),
        ensures
            r == self.pages().len(),
    {
        self.pages.len() as u32
    }

    /// The render target that a page draws to, if it is a render-target page.
    pub fn page_render_target_id(&self, page_index: PaintPageId) -> (r: Option<RenderTargetId>)
        requires
            page_index.0 < self.pages().len(),
        ensures
            match self.pages()[page_index.0 as int] {
                TexturePageAllocator::RenderTarget { id, .. } => r == Some(id),
                _ => r is None,
            },
    {
        match &self.pages[page_index.0 as usize] {
            TexturePageAllocator::RenderTarget { id, .. } => Some(*id),
            _ => None,
        }
    }
}

/// The side of the block for a request is a power of two.
pub proof fn lemma_pow2_of_block_side(requested_size: Vector2I)
    ensures
        is_pow2(block_side(requested_size)),
{
    lemma_next_pow2(
        if requested_size.x >= requested_size.y {
            requested_size.x as int
        } else {
            requested_size.y as int
        },
    );
}

/// The least power of two at or above `n` does not pass a power of two at or
/// above `n`.
pub proof fn lemma_pow2_at_most(n: int, p: int, l: int)
    requires
        is_next_pow2(n, p),
        is_pow2(l),
        n <= l,
    ensures
        1 <= p <= l,
{
    if p > l {
        lemma_pow2_divides(l, p);
    }
}

/// Two different blocks held by a well-formed atlas page never overlap. Each
/// successful `allocate` adds its rectangle's block to the page and `free`
/// only removes blocks, so the rectangles handed out on one page are pairwise
/// disjoint.
pub proof fn lemma_allocations_disjoint(page: TextureAtlasAllocator, e1: Block, e2: Block)
    requires
        page.wf(),
        page@.contains(e1),
        page@.contains(e2),
        e1 != e2,
    ensures
        !blocks_overlap(e1, e2),
{
    page.root.lemma_blocks_within(0, 0, page.size as int, e1);
    page.root.lemma_blocks_disjoint(0, 0, page.size as int, e1, e2);
}

/// A well-formed atlas page is determined by its side and the blocks it holds:
/// where it places blocks next depends on nothing else.
pub proof fn lemma_view_determines_page(a: TextureAtlasAllocator, b: TextureAtlasAllocator)
    requires
        a.wf(),
        b.wf(),
        a.length() == b.length(),
        a@ == b@,
    ensures
        a == b,
{
    a.root.lemma_blocks_determine_node(b.root, 0, 0, a.size as int);
}

/// Freeing the block that `allocate` just handed out restores the page as it
/// was before the allocation. `allocate` adds a block that overlaps none held
/// before, and `free` removes it again.
pub proof fn lemma_free_restores_page(
    before: TextureAtlasAllocator,
    allocated: Block,
    after: TextureAtlasAllocator,
)
    requires
        before.wf(),
        after.wf(),
        after.length() == before.length(),
        allocated.2 >= 1,
        forall|e: Block| #[trigger] before@.contains(e) ==> !blocks_overlap(allocated, e),
        after@ == before@.insert(allocated).remove(allocated),
    ensures
        after == before,
{
    assert(blocks_overlap(allocated, allocated));
    assert(!before@.contains(allocated));
    assert(after@ =~= before@);
    lemma_view_determines_page(after, before);
}

/// The blocks held along a run of `free` calls: `views[0]` holds exactly the
/// blocks of `order`, and each `views[k + 1]` is `views[k]` after `free` of
/// `order[k]`, as `free` ensures. The run ends with no block held, so
/// `is_empty` holds on the last page: a page that returns every block it
/// handed out, in any order, is empty again.
pub proof fn lemma_round_trip_empties(views: Seq<Set<Block>>, order: Seq<Block>)
    requires
        views.len() == order.len() + 1,
        views[0] == order.to_set(),
        forall|k: int| 0 <= k < order.len() ==> #[trigger] views[k + 1] == views[k].remove(order[k]),
    ensures
        views[order.len() as int] == Set::<Block>::empty(),
{
    let n = order.len() as int;
    lemma_freed_so_far(views, order, n);
    assert forall|e: Block| !#[trigger] views[n].contains(e) by {
        if views[n].contains(e) {
            assert(order.to_set().contains(e));
            let j = choose|j: int| 0 <= j < order.len() && order[j] == e;
        }
    }
    assert(views[n] =~= Set::<Block>::empty());
}

/// After `k` steps of the run, what is held is what `order` lists minus the
/// first `k` blocks returned.
proof fn lemma_freed_so_far(views: Seq<Set<Block>>, order: Seq<Block>, k: int)
    requires
        views.len() == order.len() + 1,
        views[0] == order.to_set(),
        forall|i: int| 0 <= i < order.len() ==> #[trigger] views[i + 1] == views[i].remove(order[i]),
        0 <= k <= order.len(),
    ensures
        forall|e: Block| #[trigger]
            views[k].contains(e) <==> (order.to_set().contains(e) && forall|j: int|
                0 <= j < k ==> order[j] != e),
    decreases k,
{
    if k > 0 {
        lemma_freed_so_far(views, order, k - 1);
        let i = k - 1;
        assert(views[i + 1] == views[i].remove(order[i]));
        assert forall|e: Block| #[trigger]
            views[k].contains(e) <==> (order.to_set().contains(e) && forall|j: int|
                0 <= j < k ==> order[j] != e) by {
            if order.to_set().contains(e) && forall|j: int| 0 <= j < k ==> order[j] != e {
                assert(forall|j: int| 0 <= j < k - 1 ==> order[j] != e);
            }
        }
    }
}

} // verus!
