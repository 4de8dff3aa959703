//! The quadtree behind an atlas page.
//!
//! A node stands for a square region of its page. A region is modelled by
//! the set of blocks handed out within it, each written as `(x, y, side)`.

use vstd::prelude::*;
use crate::geometry::{is_pow2, lemma_pow2_divides, RectI, Vector2I};

verus! {

/// A block of a page: its upper-left corner and its side.
pub type Block = (int, int, int);

/// The largest side of an atlas page: every coordinate in it fits in an `i32`.
pub const MAX_ATLAS_LENGTH: u32 = 0x4000_0000;

/// Whether two blocks share any pixel.
pub open spec fn blocks_overlap(a: Block, b: Block) -> bool {
    &&& a.0 < b.0 + b.2
    &&& b.0 < a.0 + a.2
    &&& a.1 < b.1 + b.2
    &&& b.1 < a.1 + a.2
}

/// Whether block `a` lies inside the square at `(x, y)` with side `s`.
pub open spec fn block_within(a: Block, x: int, y: int, s: int) -> bool {
    &&& a.2 >= 1
    &&& x <= a.0
    &&& a.0 + a.2 <= x + s
    &&& y <= a.1
    &&& a.1 + a.2 <= y + s
}

/// A node of the quadtree. A node stands for a square region of its page.
#[derive(Debug)]
pub enum TreeNode {
    EmptyLeaf,
    FullLeaf,
    /// Top left, top right, bottom left, and bottom right, in that order.
    Parent(Box<TreeNode>, Box<TreeNode>, Box<TreeNode>, Box<TreeNode>),
}

impl TreeNode {
    pub open spec fn is_empty_leaf(self) -> bool {
        self is EmptyLeaf
    }

    /// A node of side `s` is well formed when every parent can be halved and
    /// no parent has four empty leaves as children.
    pub open spec fn wf(self, s: int) -> bool
        decreases self,
    {
        match self {
            TreeNode::EmptyLeaf => true,
            TreeNode::FullLeaf => true,
            TreeNode::Parent(a, b, c, d) => {
                &&& s >= 2
                &&& s % 2 == 0
                &&& a.wf(s / 2)
                &&& b.wf(s / 2)
                &&& c.wf(s / 2)
                &&& d.wf(s / 2)
                &&& !(a.is_empty_leaf() && b.is_empty_leaf() && c.is_empty_leaf()
                    && d.is_empty_leaf())
            },
        }
    }

    /// The blocks handed out within this node, which covers the square at
    /// `(x, y)` with side `s`.
    pub open spec fn blocks(self, x: int, y: int, s: int) -> Set<Block>
        decreases self,
    {
        match self {
            TreeNode::EmptyLeaf => Set::empty(),
            TreeNode::FullLeaf => set![(x, y, s)],
            TreeNode::Parent(a, b, c, d) => {
                let h = s / 2;
                a.blocks(x, y, h) + b.blocks(x + h, y, h) + c.blocks(x, y + h, h) + d.blocks(
                    x + h,
                    y + h,
                    h,
                )
            },
        }
    }

    /// The corner of the first place, in top-left, top-right, bottom-left,
    /// bottom-right order at every level, where a block of side `req` is free.
    pub open spec fn first_fit(self, x: int, y: int, s: int, req: int) -> Option<(int, int)>
        decreases self,
    {
        if s < req {
            None
        } else {
            match self {
                TreeNode::EmptyLeaf => Some((x, y)),
                TreeNode::FullLeaf => None,
                TreeNode::Parent(a, b, c, d) => {
                    let h = s / 2;
                    if a.first_fit(x, y, h, req) is Some {
                        a.first_fit(x, y, h, req)
                    } else if b.first_fit(x + h, y, h, req) is Some {
                        b.first_fit(x + h, y, h, req)
                    } else if c.first_fit(x, y + h, h, req) is Some {
                        c.first_fit(x, y + h, h, req)
                    } else {
                        d.first_fit(x + h, y + h, h, req)
                    }
                },
            }
        }
    }

    /// Every block of a well-formed node lies inside the node.
    pub proof fn lemma_blocks_within(self, x: int, y: int, s: int, e: Block)
        requires
            self.wf(s),
            s >= 1,
            self.blocks(x, y, s).contains(e),
        ensures
            block_within(e, x, y, s),
            self is Parent ==> e.2 <= s / 2,
        decreases self,
    {
        if let TreeNode::Parent(a, b, c, d) = self {
            let h = s / 2;
            if a.blocks(x, y, h).contains(e) {
                a.lemma_blocks_within(x, y, h, e);
            } else if b.blocks(x + h, y, h).contains(e) {
                b.lemma_blocks_within(x + h, y, h, e);
            } else if c.blocks(x, y + h, h).contains(e) {
                c.lemma_blocks_within(x, y + h, h, e);
            } else {
                d.lemma_blocks_within(x + h, y + h, h, e);
            }
        }
    }

    /// A well-formed node has handed out nothing exactly when it is an empty leaf.
    pub proof fn lemma_empty_iff_leaf(self, x: int, y: int, s: int)
        requires
            self.wf(s),
        ensures
            self.blocks(x, y, s).is_empty() <==> self is EmptyLeaf,
        decreases self,
    {
        match self {
            TreeNode::EmptyLeaf => {},
            TreeNode::FullLeaf => {
                assert(self.blocks(x, y, s).contains((x, y, s)));
            },
            TreeNode::Parent(a, b, c, d) => {
                let h = s / 2;
                a.lemma_empty_iff_leaf(x, y, h);
                b.lemma_empty_iff_leaf(x + h, y, h);
                c.lemma_empty_iff_leaf(x, y + h, h);
                d.lemma_empty_iff_leaf(x + h, y + h, h);
                if !a.is_empty_leaf() {
                    let e = a.blocks(x, y, h).choose();
                    assert(self.blocks(x, y, s).contains(e));
                } else if !b.is_empty_leaf() {
                    let e = b.blocks(x + h, y, h).choose();
                    assert(self.blocks(x, y, s).contains(e));
                } else if !c.is_empty_leaf() {
                    let e = c.blocks(x, y + h, h).choose();
                    assert(self.blocks(x, y, s).contains(e));
                } else {
                    let e = d.blocks(x + h, y + h, h).choose();
                    assert(self.blocks(x, y, s).contains(e));
                }
            },
        }
    }

    /// The blocks of a well-formed node never overlap one another.
    pub proof fn lemma_blocks_disjoint(self, x: int, y: int, s: int, e1: Block, e2: Block)
        requires
            self.wf(s),
            s >= 1,
            self.blocks(x, y, s).contains(e1),
            self.blocks(x, y, s).contains(e2),
            e1 != e2,
        ensures
            !blocks_overlap(e1, e2),
        decreases self,
    {
        if let TreeNode::Parent(a, b, c, d) = self {
            let h = s / 2;
            let ka = a.blocks(x, y, h);
            let kb = b.blocks(x + h, y, h);
            let kc = c.blocks(x, y + h, h);
            let kd = d.blocks(x + h, y + h, h);
            if ka.contains(e1) {
                a.lemma_blocks_within(x, y, h, e1);
            } else if kb.contains(e1) {
                b.lemma_blocks_within(x + h, y, h, e1);
            } else if kc.contains(e1) {
                c.lemma_blocks_within(x, y + h, h, e1);
            } else {
                d.lemma_blocks_within(x + h, y + h, h, e1);
            }
            if ka.contains(e2) {
                a.lemma_blocks_within(x, y, h, e2);
            } else if kb.contains(e2) {
                b.lemma_blocks_within(x + h, y, h, e2);
            } else if kc.contains(e2) {
                c.lemma_blocks_within(x, y + h, h, e2);
            } else {
                d.lemma_blocks_within(x + h, y + h, h, e2);
            }
            if ka.contains(e1) && ka.contains(e2) {
                a.lemma_blocks_disjoint(x, y, h, e1, e2);
            } else if kb.contains(e1) && kb.contains(e2) {
                b.lemma_blocks_disjoint(x + h, y, h, e1, e2);
            } else if kc.contains(e1) && kc.contains(e2) {
                c.lemma_blocks_disjoint(x, y + h, h, e1, e2);
            } else if kd.contains(e1) && kd.contains(e2) {
                d.lemma_blocks_disjoint(x + h, y + h, h, e1, e2);
            }
        }
    }

    /// The first fit is a block inside the node that overlaps none of its
    /// blocks, aligned as the node is.
    pub proof fn lemma_first_fit_free(self, x: int, y: int, s: int, req: int)
        requires
            self.wf(s),
            is_pow2(s),
            is_pow2(req),
            x % s == 0,
            y % s == 0,
            self.first_fit(x, y, s, req) is Some,
        ensures
            ({
                let (fx, fy) = self.first_fit(x, y, s, req).unwrap();
                &&& block_within((fx, fy, req), x, y, s)
                &&& fx % req == 0
                &&& fy % req == 0
                &&& forall|e: Block| #[trigger]
                    self.blocks(x, y, s).contains(e) ==> !blocks_overlap((fx, fy, req), e)
            }),
        decreases self,
    {
        lemma_pow2_divides(req, s);
        assert(x % req == 0 && y % req == 0) by {
            lemma_mod_of_multiple(x, s, req);
            lemma_mod_of_multiple(y, s, req);
        }
        if let TreeNode::Parent(a, b, c, d) = self {
            let h = s / 2;
            assert(is_pow2(h));
            assert(s % h == 0) by {
                vstd::arithmetic::div_mod::lemma_mod_multiples_basic(2, h);
            }
            assert(x % h == 0 && y % h == 0 && (x + h) % h == 0 && (y + h) % h == 0) by {
                lemma_mod_of_multiple(x, s, h);
                lemma_mod_of_multiple(y, s, h);
                vstd::arithmetic::div_mod::lemma_mod_self_0(h);
                lemma_mod_of_multiple(x, h, h);
                lemma_mod_of_multiple(y, h, h);
            }
            let (fx, fy) = self.first_fit(x, y, s, req).unwrap();
            let (cx, cy) = if a.first_fit(x, y, h, req) is Some {
                a.lemma_first_fit_free(x, y, h, req);
                (x, y)
            } else if b.first_fit(x + h, y, h, req) is Some {
                b.lemma_first_fit_free(x + h, y, h, req);
                (x + h, y)
            } else if c.first_fit(x, y + h, h, req) is Some {
                c.lemma_first_fit_free(x, y + h, h, req);
                (x, y + h)
            } else {
                d.lemma_first_fit_free(x + h, y + h, h, req);
                (x + h, y + h)
            };
            assert(block_within((fx, fy, req), cx, cy, h));
            assert forall|e: Block| #[trigger]
                self.blocks(x, y, s).contains(e) implies !blocks_overlap((fx, fy, req), e) by {
                if a.blocks(x, y, h).contains(e) {
                    a.lemma_blocks_within(x, y, h, e);
                    if cx == x && cy == y {
                        a.lemma_first_fit_free(x, y, h, req);
                    }
                } else if b.blocks(x + h, y, h).contains(e) {
                    b.lemma_blocks_within(x + h, y, h, e);
                    if cx == x + h && cy == y {
                        b.lemma_first_fit_free(x + h, y, h, req);
                    }
                } else if c.blocks(x, y + h, h).contains(e) {
                    c.lemma_blocks_within(x, y + h, h, e);
                    if cx == x && cy == y + h {
                        c.lemma_first_fit_free(x, y + h, h, req);
                    }
                } else {
                    d.lemma_blocks_within(x + h, y + h, h, e);
                    if cx == x + h && cy == y + h {
                        d.lemma_first_fit_free(x + h, y + h, h, req);
                        assert(d.blocks(x + h, y + h, h).contains(e));
                    }
                }
            }
        }
    }
}

/// Whether the square at `(x, y)` with side `s` overlaps none of `blocks`.
pub open spec fn square_free(blocks: Set<Block>, x: int, y: int, s: int) -> bool {
    forall|e: Block| #[trigger] blocks.contains(e) ==> !blocks_overlap((x, y, s), e)
}

/// The corner of the first free square of side `req` inside the square at
/// `(x, y)` with side `s`, searching the top-left, top-right, bottom-left and
/// bottom-right quarters in that order at every level, given the blocks
/// already handed out.
pub open spec fn first_free(blocks: Set<Block>, x: int, y: int, s: int, req: int) -> Option<
    (int, int),
>
    decreases s,
{
    if s < req || s <= 0 {
        None
    } else if s == req {
        if square_free(blocks, x, y, s) {
            Some((x, y))
        } else {
            None
        }
    } else {
        let h = s / 2;
        if first_free(blocks, x, y, h, req) is Some {
            first_free(blocks, x, y, h, req)
        } else if first_free(blocks, x + h, y, h, req) is Some {
            first_free(blocks, x + h, y, h, req)
        } else if first_free(blocks, x, y + h, h, req) is Some {
            first_free(blocks, x, y + h, h, req)
        } else {
            first_free(blocks, x + h, y + h, h, req)
        }
    }
}

/// In a square that no block overlaps, the first free place is its corner.
pub proof fn lemma_first_free_empty(blocks: Set<Block>, x: int, y: int, s: int, req: int)
    requires
        is_pow2(s),
        is_pow2(req),
        req <= s,
        square_free(blocks, x, y, s),
    ensures
        first_free(blocks, x, y, s, req) == Some((x, y)),
    decreases s,
{
    if s > req {
        lemma_pow2_divides(req, s);
        let h = s / 2;
        assert(is_pow2(h));
        assert forall|e: Block| #[trigger] blocks.contains(e) implies !blocks_overlap((x, y, h), e) by {
            assert(!blocks_overlap((x, y, s), e));
        }
        lemma_first_free_empty(blocks, x, y, h, req);
    }
}

/// In a square that one block covers whole, nothing is free.
pub proof fn lemma_first_free_covered(blocks: Set<Block>, x: int, y: int, s: int, req: int, c: Block)
    requires
        blocks.contains(c),
        c.0 <= x,
        x + s <= c.0 + c.2,
        c.1 <= y,
        y + s <= c.1 + c.2,
    ensures
        first_free(blocks, x, y, s, req) is None,
    decreases s,
{
    if s < req || s <= 0 {
    } else if s == req {
        assert(blocks_overlap((x, y, s), c));
    } else {
        let h = s / 2;
        lemma_first_free_covered(blocks, x, y, h, req, c);
        lemma_first_free_covered(blocks, x + h, y, h, req, c);
        lemma_first_free_covered(blocks, x, y + h, h, req, c);
        lemma_first_free_covered(blocks, x + h, y + h, h, req, c);
    }
}

/// Whether the page with side `length` holding `blocks` has an aligned square
/// of side `req` that overlaps none of them.
pub open spec fn has_free_block(blocks: Set<Block>, length: int, req: int) -> bool {
    exists|bx: int, by: int|
        #![trigger block_within((bx, by, req), 0, 0, length)]
        bx % req == 0 && by % req == 0 && block_within((bx, by, req), 0, 0, length) && forall|
            e: Block,
        | #[trigger] blocks.contains(e) ==> !blocks_overlap((bx, by, req), e)
}

impl TreeNode {
    /// Whenever an aligned block of side `req` inside the node overlaps none
    /// of its blocks, the first fit finds a place.
    pub proof fn lemma_first_fit_complete(self, x: int, y: int, s: int, req: int, bx: int, by: int)
        requires
            self.wf(s),
            is_pow2(s),
            is_pow2(req),
            x % s == 0,
            y % s == 0,
            bx % req == 0,
            by % req == 0,
            block_within((bx, by, req), x, y, s),
            forall|e: Block| #[trigger]
                self.blocks(x, y, s).contains(e) ==> !blocks_overlap((bx, by, req), e),
        ensures
            self.first_fit(x, y, s, req) is Some,
        decreases self,
    {
        match self {
            TreeNode::EmptyLeaf => {},
            TreeNode::FullLeaf => {
                assert(self.blocks(x, y, s).contains((x, y, s)));
            },
            TreeNode::Parent(a, b, c, d) => {
                let h = s / 2;
                assert(is_pow2(h));
                assert(s % h == 0) by {
                    vstd::arithmetic::div_mod::lemma_mod_multiples_basic(2, h);
                }
                assert(x % h == 0 && y % h == 0 && (x + h) % h == 0 && (y + h) % h == 0) by {
                    lemma_mod_of_multiple(x, s, h);
                    lemma_mod_of_multiple(y, s, h);
                    vstd::arithmetic::div_mod::lemma_mod_self_0(h);
                    lemma_mod_of_multiple(x, h, h);
                    lemma_mod_of_multiple(y, h, h);
                }
                lemma_pow2_divides(req, s);
                if req == s {
                    self.lemma_empty_iff_leaf(x, y, s);
                    let e = self.blocks(x, y, s).choose();
                    self.lemma_blocks_within(x, y, s, e);
                    assert(blocks_overlap((bx, by, req), e));
                } else {
                    assert(req <= h);
                    lemma_pow2_divides(req, h);
                    assert((x + h) % req == 0 && (y + h) % req == 0) by {
                        lemma_mod_of_multiple(x, h, req);
                        lemma_mod_of_multiple(y, h, req);
                    }
                    lemma_aligned_side(bx, x + h, req);
                    lemma_aligned_side(by, y + h, req);
                    let (cx, cy) = if bx < x + h {
                        (x, y)
                    } else {
                        (x + h, y)
                    };
                    let cy = if by < y + h {
                        y
                    } else {
                        y + h
                    };
                    if cx == x && cy == y {
                        assert forall|e: Block| #[trigger]
                            a.blocks(x, y, h).contains(e) implies !blocks_overlap(
                            (bx, by, req),
                            e,
                        ) by {
                            assert(self.blocks(x, y, s).contains(e));
                        }
                        a.lemma_first_fit_complete(x, y, h, req, bx, by);
                    } else if cx == x + h && cy == y {
                        assert forall|e: Block| #[trigger]
                            b.blocks(x + h, y, h).contains(e) implies !blocks_overlap(
                            (bx, by, req),
                            e,
                        ) by {
                            assert(self.blocks(x, y, s).contains(e));
                        }
                        b.lemma_first_fit_complete(x + h, y, h, req, bx, by);
                    } else if cx == x && cy == y + h {
                        assert forall|e: Block| #[trigger]
                            c.blocks(x, y + h, h).contains(e) implies !blocks_overlap(
                            (bx, by, req),
                            e,
                        ) by {
                            assert(self.blocks(x, y, s).contains(e));
                        }
                        c.lemma_first_fit_complete(x, y + h, h, req, bx, by);
                    } else {
                        assert forall|e: Block| #[trigger]
                            d.blocks(x + h, y + h, h).contains(e) implies !blocks_overlap(
                            (bx, by, req),
                            e,
                        ) by {
                            assert(self.blocks(x, y, s).contains(e));
                        }
                        d.lemma_first_fit_complete(x + h, y + h, h, req, bx, by);
                    }
                }
            },
        }
    }
}

/// An aligned block that starts before an aligned boundary ends by it.
proof fn lemma_aligned_side(b: int, edge: int, req: int)
    requires
        req > 0,
        b % req == 0,
        edge % req == 0,
    ensures
        b < edge ==> b + req <= edge,
{
    vstd::arithmetic::div_mod::lemma_fundamental_div_mod(b, req);
    vstd::arithmetic::div_mod::lemma_fundamental_div_mod(edge, req);
    let i = b / req;
    let j = edge / req;
    if b < edge {
        assert(i < j) by (nonlinear_arith)
            requires
                b == req * i,
                edge == req * j,
                b < edge,
                req > 0,
        ;
        assert(b + req <= edge) by (nonlinear_arith)
            requires
                b == req * i,
                edge == req * j,
                i + 1 <= j,
                req > 0,
        ;
    }
}

impl TreeNode {
    /// Two well-formed nodes over the same square that hold the same blocks
    /// are the same node.
    pub proof fn lemma_blocks_determine_node(self, other: TreeNode, x: int, y: int, s: int)
        requires
            self.wf(s),
            other.wf(s),
            s >= 1,
            self.blocks(x, y, s) == other.blocks(x, y, s),
        ensures
            self == other,
        decreases self,
    {
        self.lemma_empty_iff_leaf(x, y, s);
        other.lemma_empty_iff_leaf(x, y, s);
        if self is FullLeaf || other is FullLeaf {
            let full = (x, y, s);
            assert(self.blocks(x, y, s).contains(full) || other.blocks(x, y, s).contains(full));
            assert(self.blocks(x, y, s).contains(full));
            self.lemma_blocks_within(x, y, s, full);
            other.lemma_blocks_within(x, y, s, full);
        } else if let TreeNode::Parent(a, b, c, d) = self {
            if let TreeNode::Parent(a2, b2, c2, d2) = other {
                let h = s / 2;
                self.lemma_same_child_blocks(other, x, y, s, *a, *a2, x, y);
                self.lemma_same_child_blocks(other, x, y, s, *b, *b2, x + h, y);
                self.lemma_same_child_blocks(other, x, y, s, *c, *c2, x, y + h);
                self.lemma_same_child_blocks(other, x, y, s, *d, *d2, x + h, y + h);
                a.lemma_blocks_determine_node(*a2, x, y, h);
                b.lemma_blocks_determine_node(*b2, x + h, y, h);
                c.lemma_blocks_determine_node(*c2, x, y + h, h);
                d.lemma_blocks_determine_node(*d2, x + h, y + h, h);
            }
        }
    }

    /// Matching children of two parents with the same blocks hold the same
    /// blocks: those of the parent that lie in the child's quarter.
    proof fn lemma_same_child_blocks(
        self,
        other: TreeNode,
        x: int,
        y: int,
        s: int,
        child: TreeNode,
        child2: TreeNode,
        cx: int,
        cy: int,
    )
        requires
            self.wf(s),
            other.wf(s),
            s >= 1,
            self.blocks(x, y, s) == other.blocks(x, y, s),
            self matches TreeNode::Parent(a, b, c, d) && other matches TreeNode::Parent(
                a2,
                b2,
                c2,
                d2,
            ) && ((child == *a && child2 == *a2 && cx == x && cy == y) || (child == *b && child2
                == *b2 && cx == x + s / 2 && cy == y) || (child == *c && child2 == *c2 && cx == x
                && cy == y + s / 2) || (child == *d && child2 == *d2 && cx == x + s / 2 && cy == y
                + s / 2)),
        ensures
            child.blocks(cx, cy, s / 2) == child2.blocks(cx, cy, s / 2),
    {
        let h = s / 2;
        assert forall|e: Block| #[trigger] child.blocks(cx, cy, h).contains(e) implies child2.blocks(
            cx,
            cy,
            h,
        ).contains(e) by {
            child.lemma_blocks_within(cx, cy, h, e);
            assert(other.blocks(x, y, s).contains(e));
            other.lemma_in_quarter(x, y, s, e, child2, cx, cy);
        }
        assert forall|e: Block| #[trigger] child2.blocks(cx, cy, h).contains(e) implies child.blocks(
            cx,
            cy,
            h,
        ).contains(e) by {
            child2.lemma_blocks_within(cx, cy, h, e);
            assert(self.blocks(x, y, s).contains(e));
            self.lemma_in_quarter(x, y, s, e, child, cx, cy);
        }
        assert(child.blocks(cx, cy, h) =~= child2.blocks(cx, cy, h));
    }

    /// A block of a parent that lies in one quarter is a block of that quarter's child.
    proof fn lemma_in_quarter(self, x: int, y: int, s: int, e: Block, child: TreeNode, cx: int, cy: int)
        requires
            self.wf(s),
            s >= 1,
            self.blocks(x, y, s).contains(e),
            block_within(e, cx, cy, s / 2),
            self matches TreeNode::Parent(a, b, c, d) && ((child == *a && cx == x && cy == y) || (
            child == *b && cx == x + s / 2 && cy == y) || (child == *c && cx == x && cy == y + s
                / 2) || (child == *d && cx == x + s / 2 && cy == y + s / 2)),
        ensures
            child.blocks(cx, cy, s / 2).contains(e),
    {
        if let TreeNode::Parent(a, b, c, d) = self {
            let h = s / 2;
            if a.blocks(x, y, h).contains(e) {
                a.lemma_blocks_within(x, y, h, e);
            } else if b.blocks(x + h, y, h).contains(e) {
                b.lemma_blocks_within(x + h, y, h, e);
            } else if c.blocks(x, y + h, h).contains(e) {
                c.lemma_blocks_within(x, y + h, h, e);
            } else {
                d.lemma_blocks_within(x + h, y + h, h, e);
            }
        }
    }
}

impl TreeNode {
    /// The tree's first fit is the first free square over the blocks of the
    /// whole page, given that the blocks outside this node stay outside it.
    pub proof fn lemma_first_fit_is_first_free(
        self,
        all: Set<Block>,
        x: int,
        y: int,
        s: int,
        req: int,
    )
        requires
            self.wf(s),
            is_pow2(s),
            is_pow2(req),
            self.blocks(x, y, s).subset_of(all),
            forall|e: Block|
                #[trigger] all.contains(e) && !self.blocks(x, y, s).contains(e) ==> !blocks_overlap(
                    (x, y, s),
                    e,
                ),
        ensures
            self.first_fit(x, y, s, req) == first_free(all, x, y, s, req),
        decreases self,
    {
        if s < req {
        } else {
            match self {
                TreeNode::EmptyLeaf => {
                    lemma_first_free_empty(all, x, y, s, req);
                },
                TreeNode::FullLeaf => {
                    assert(self.blocks(x, y, s).contains((x, y, s)));
                    lemma_first_free_covered(all, x, y, s, req, (x, y, s));
                },
                TreeNode::Parent(a, b, c, d) => {
                    let h = s / 2;
                    assert(is_pow2(h));
                    if s == req {
                        self.lemma_empty_iff_leaf(x, y, s);
                        let e = self.blocks(x, y, s).choose();
                        self.lemma_blocks_within(x, y, s, e);
                        assert(!square_free(all, x, y, s)) by {
                            assert(all.contains(e));
                            assert(blocks_overlap((x, y, s), e));
                        }
                    } else {
                        self.lemma_child_first_free(all, x, y, s, req, *a, x, y);
                        self.lemma_child_first_free(all, x, y, s, req, *b, x + h, y);
                        self.lemma_child_first_free(all, x, y, s, req, *c, x, y + h);
                        self.lemma_child_first_free(all, x, y, s, req, *d, x + h, y + h);
                    }
                },
            }
        }
    }

    /// One step of `lemma_first_fit_is_first_free`: the same holds for each child.
    proof fn lemma_child_first_free(
        self,
        all: Set<Block>,
        x: int,
        y: int,
        s: int,
        req: int,
        child: TreeNode,
        cx: int,
        cy: int,
    )
        requires
            self.wf(s),
            is_pow2(s),
            is_pow2(req),
            req < s,
            self.blocks(x, y, s).subset_of(all),
            forall|e: Block|
                #[trigger] all.contains(e) && !self.blocks(x, y, s).contains(e) ==> !blocks_overlap(
                    (x, y, s),
                    e,
                ),
            self matches TreeNode::Parent(a, b, c, d) && (
                (child == *a && cx == x && cy == y)
                || (child == *b && cx == x + s / 2 && cy == y)
                || (child == *c && cx == x && cy == y + s / 2)
                || (child == *d && cx == x + s / 2 && cy == y + s / 2)),
        ensures
            child.first_fit(cx, cy, s / 2, req) == first_free(all, cx, cy, s / 2, req),
        decreases self, 0int,
    {
        if let TreeNode::Parent(a, b, c, d) = self {
            let h = s / 2;
            assert(is_pow2(h));
            assert(child.wf(h));
            assert forall|e: Block|
                #[trigger] all.contains(e) && !child.blocks(cx, cy, h).contains(e) implies !blocks_overlap(
                (cx, cy, h),
                e,
            ) by {
                if a.blocks(x, y, h).contains(e) {
                    a.lemma_blocks_within(x, y, h, e);
                } else if b.blocks(x + h, y, h).contains(e) {
                    b.lemma_blocks_within(x + h, y, h, e);
                } else if c.blocks(x, y + h, h).contains(e) {
                    c.lemma_blocks_within(x, y + h, h, e);
                } else if d.blocks(x + h, y + h, h).contains(e) {
                    d.lemma_blocks_within(x + h, y + h, h, e);
                } else {
                    assert(!self.blocks(x, y, s).contains(e));
                }
            }
            assert forall|e: Block| #[trigger] child.blocks(cx, cy, h).contains(e) implies all.contains(e) by {
                assert(self.blocks(x, y, s).contains(e));
            }
            child.lemma_first_fit_is_first_free(all, cx, cy, h, req);
        }
    }
}

impl TreeNode {
    /// Whether this is a parent whose four children are empty leaves.
    pub open spec fn has_only_empty_children(self) -> bool {
        match self {
            TreeNode::Parent(a, b, c, d) => a.is_empty_leaf() && b.is_empty_leaf()
                && c.is_empty_leaf() && d.is_empty_leaf(),
            _ => false,
        }
    }

    pub fn is_empty(&self) -> (r: bool)
        ensures
            r == self.is_empty_leaf(),
    {
        matches!(*self, TreeNode::EmptyLeaf)
    }

    pub fn is_full(&self) -> (r: bool)
        ensures
            r == (*self is FullLeaf),
    {
        matches!(*self, TreeNode::FullLeaf)
    }

    /// Collapses a parent whose four children are empty leaves into an empty
    /// leaf; leaves every other node as it is.
    pub fn merge_if_necessary(&mut self)
        ensures
            old(self).has_only_empty_children() ==> *final(self) == TreeNode::EmptyLeaf,
            !old(self).has_only_empty_children() ==> *final(self) == *old(self),
    {
        let merge = match &*self {
            TreeNode::Parent(a, b, c, d) => a.is_empty() && b.is_empty() && c.is_empty()
                && d.is_empty(),
            _ => false,
        };
        if merge {
            *self = TreeNode::EmptyLeaf;
        }
    }

    /// Places a block of side `requested_size` at the first free place of this
    /// node, which covers the square at `this_origin` with side `this_size`.
    pub fn allocate(&mut self, this_origin: Vector2I, this_size: u32, requested_size: u32) -> (r:
        Option<RectI>)
        requires
            old(self).wf(this_size as int),
            is_pow2(this_size as int),
            is_pow2(requested_size as int),
            0 <= this_origin.x,
            0 <= this_origin.y,
            this_origin.x + this_size <= MAX_ATLAS_LENGTH,
            this_origin.y + this_size <= MAX_ATLAS_LENGTH,
        ensures
            final(self).wf(this_size as int),
            match r {
                Some(rect) => {
                    &&& old(self).first_fit(
                        this_origin.x as int,
                        this_origin.y as int,
                        this_size as int,
                        requested_size as int,
                    ) == Some((rect.origin.x as int, rect.origin.y as int))
                    &&& rect.size.x == requested_size
                    &&& rect.size.y == requested_size
                    &&& final(self).blocks(
                        this_origin.x as int,
                        this_origin.y as int,
                        this_size as int,
                    ) == old(self).blocks(
                        this_origin.x as int,
                        this_origin.y as int,
                        this_size as int,
                    ).insert((rect.origin.x as int, rect.origin.y as int, requested_size as int))
                },
                None => {
                    &&& old(self).first_fit(
                        this_origin.x as int,
                        this_origin.y as int,
                        this_size as int,
                        requested_size as int,
                    ) is None
                    &&& *final(self) == *old(self)
                },
            },
        decreases this_size,
    {
        let ghost x = this_origin.x as int;
        let ghost y = this_origin.y as int;
        if self.is_full() {
            return None;
        }
        if this_size < requested_size {
            return None;
        }
        if self.is_empty() {
            if this_size == requested_size {
                *self = TreeNode::FullLeaf;
                proof {
                    assert(self.blocks(x, y, this_size as int) =~= Set::<Block>::empty().insert(
                        (x, y, requested_size as int),
                    ));
                }
                return Some(RectI::new(this_origin, Vector2I::splat(this_size as i32)));
            }
            proof {
                lemma_pow2_divides(requested_size as int, this_size as int);
            }
            *self = TreeNode::Parent(
                Box::new(TreeNode::EmptyLeaf),
                Box::new(TreeNode::EmptyLeaf),
                Box::new(TreeNode::EmptyLeaf),
                Box::new(TreeNode::EmptyLeaf),
            );
        }
        let ghost pre = *self;
        let kid_size = this_size / 2;
        let k = kid_size as i32;
        proof {
            assert(this_size >= 2 && this_size % 2 == 0);
            assert(is_pow2(kid_size as int));
        }
        let r = match self {
            TreeNode::Parent(a, b, c, d) => {
                let ra = a.allocate(this_origin, kid_size, requested_size);
                if ra.is_some() {
                    ra
                } else {
                    let rb = b.allocate(
                        Vector2I::new(this_origin.x + k, this_origin.y),
                        kid_size,
                        requested_size,
                    );
                    if rb.is_some() {
                        rb
                    } else {
                        let rc = c.allocate(
                            Vector2I::new(this_origin.x, this_origin.y + k),
                            kid_size,
                            requested_size,
                        );
                        if rc.is_some() {
                            rc
                        } else {
                            d.allocate(
                                Vector2I::new(this_origin.x + k, this_origin.y + k),
                                kid_size,
                                requested_size,
                            )
                        }
                    }
                }
            },
            _ => None,
        };
        proof {
            let s = this_size as int;
            let req = requested_size as int;
            if old(self).is_empty_leaf() {
                reveal_with_fuel(TreeNode::blocks, 2);
                reveal_with_fuel(TreeNode::first_fit, 2);
                assert(pre.first_fit(x, y, s, req) is Some);
            }
            assert(old(self).first_fit(x, y, s, req) == pre.first_fit(x, y, s, req));
            assert(old(self).blocks(x, y, s) =~= pre.blocks(x, y, s));
            if let Some(rect) = r {
                let rb = (rect.origin.x as int, rect.origin.y as int, req);
                assert(self.blocks(x, y, s) =~= pre.blocks(x, y, s).insert(rb));
                assert(self.blocks(x, y, s).contains(rb));
                let fin = *self;
                if let TreeNode::Parent(a, b, c, d) = fin {
                    let h = s / 2;
                    assert(a.wf(h));
                    assert(b.wf(h));
                    assert(c.wf(h));
                    assert(d.wf(h));
                    if a.is_empty_leaf() && b.is_empty_leaf() && c.is_empty_leaf() {
                        assert(a.blocks(x, y, h) =~= Set::<Block>::empty());
                        assert(b.blocks(x + h, y, h) =~= Set::<Block>::empty());
                        assert(c.blocks(x, y + h, h) =~= Set::<Block>::empty());
                        assert(d.blocks(x + h, y + h, h).contains(rb));
                    }
                }
            }
        }
        if r.is_none() {
            self.merge_if_necessary();
        }
        r
    }

    /// Returns the block of side `requested_size` at `requested_origin` to
    /// this node, which covers the square at `this_origin` with side `this_size`.
    pub fn free(
        &mut self,
        this_origin: Vector2I,
        this_size: u32,
        requested_origin: Vector2I,
        requested_size: u32,
    )
        requires
            old(self).wf(this_size as int),
            this_size >= 1,
            0 <= this_origin.x,
            0 <= this_origin.y,
            this_origin.x + this_size <= MAX_ATLAS_LENGTH,
            this_origin.y + this_size <= MAX_ATLAS_LENGTH,
            old(self).blocks(this_origin.x as int, this_origin.y as int, this_size as int).contains(
                (requested_origin.x as int, requested_origin.y as int, requested_size as int),
            ),
        ensures
            final(self).wf(this_size as int),
            final(self).blocks(this_origin.x as int, this_origin.y as int, this_size as int)
                == old(self).blocks(
                this_origin.x as int,
                this_origin.y as int,
                this_size as int,
            ).remove((requested_origin.x as int, requested_origin.y as int, requested_size as int)),
        decreases this_size,
    {
        let ghost x = this_origin.x as int;
        let ghost y = this_origin.y as int;
        let ghost s = this_size as int;
        let ghost e = (requested_origin.x as int, requested_origin.y as int, requested_size as int);
        proof {
            self.lemma_blocks_within(x, y, s, e);
        }
        if this_size <= requested_size {
            if this_size == requested_size && this_origin == requested_origin {
                *self = TreeNode::EmptyLeaf;
                proof {
                    assert(old(self).blocks(x, y, s).remove(e) =~= Set::<Block>::empty());
                }
            }
            return;
        }
        let child_size = this_size / 2;
        let k = child_size as i32;
        let ghost h = child_size as int;
        let ghost pre = *self;
        match self {
            TreeNode::Parent(a, b, c, d) => {
                proof {
                    if a.blocks(x, y, h).contains(e) {
                        a.lemma_blocks_within(x, y, h, e);
                    }
                    if b.blocks(x + h, y, h).contains(e) {
                        b.lemma_blocks_within(x + h, y, h, e);
                    }
                    if c.blocks(x, y + h, h).contains(e) {
                        c.lemma_blocks_within(x, y + h, h, e);
                    }
                    if d.blocks(x + h, y + h, h).contains(e) {
                        d.lemma_blocks_within(x + h, y + h, h, e);
                    }
                }
                if requested_origin.y < this_origin.y + k {
                    if requested_origin.x < this_origin.x + k {
                        a.free(this_origin, child_size, requested_origin, requested_size);
                    } else {
                        b.free(
                            Vector2I::new(this_origin.x + k, this_origin.y),
                            child_size,
                            requested_origin,
                            requested_size,
                        );
                    }
                } else {
                    if requested_origin.x < this_origin.x + k {
                        c.free(
                            Vector2I::new(this_origin.x, this_origin.y + k),
                            child_size,
                            requested_origin,
                            requested_size,
                        );
                    } else {
                        d.free(
                            Vector2I::new(this_origin.x + k, this_origin.y + k),
                            child_size,
                            requested_origin,
                            requested_size,
                        );
                    }
                }
            },
            _ => {},
        }
        proof {
            assert(self.blocks(x, y, s) =~= pre.blocks(x, y, s).remove(e));
        }
        self.merge_if_necessary();
        proof {
            if pre.has_only_empty_children() {
                assert(self.blocks(x, y, s) =~= pre.blocks(x, y, s).remove(e));
            }
        }
    }
}

/// A multiple of `s` is a multiple of every `t` that divides `s`.
pub proof fn lemma_mod_of_multiple(x: int, s: int, t: int)
    requires
        s > 0,
        t > 0,
        x % s == 0,
        s % t == 0,
    ensures
        x % t == 0,
        (x + s) % t == 0,
{
    let i = x / s;
    let j = s / t;
    vstd::arithmetic::div_mod::lemma_fundamental_div_mod(x, s);
    vstd::arithmetic::div_mod::lemma_fundamental_div_mod(s, t);
    assert(x == (i * j) * t && x + s == (i * j + j) * t) by (nonlinear_arith)
        requires
            x == s * i + x % s,
            x % s == 0,
            s == t * j + s % t,
            s % t == 0,
    ;
    vstd::arithmetic::div_mod::lemma_mod_multiples_basic(i * j, t);
    vstd::arithmetic::div_mod::lemma_mod_multiples_basic(i * j + j, t);
}

} // verus!
