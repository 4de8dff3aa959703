//! Tile geometry and the packing of a path's tiles into GPU records.

use vstd::prelude::*;
use crate::geometry::{RectI, Vector2I};
use crate::gpu_data::{AlphaTile, AlphaTileVertex, TileObjectPrimitive, SOLID_TILE_INDEX};
use crate::tile_map::{coords_at, index_of, lemma_index_in_range, rect_contains, rect_fits, rect_within, DenseTileMap};

verus! {

pub const TILE_WIDTH: u32 = 16;

pub const TILE_HEIGHT: u32 = 16;

/// The number of mask tiles in one row of the mask texture.
pub const MASK_TILES_ACROSS: u32 = 256;

/// A mask-texture coordinate, in texels scaled to 16 bits, of mask tile
/// column (or row) `m`: `m * 65535 / MASK_TILES_ACROSS`, rounded down.
pub open spec fn mask_coord(m: int) -> int {
    m * 65535 / (MASK_TILES_ACROSS as int)
}

/// The vertex of the tile at `tile_origin`, at corner `tile_offset`.
pub open spec fn vertex_spec(
    tile_origin: Vector2I,
    tile_index: u16,
    tile_offset: Vector2I,
    object_index: u16,
    backdrop: i16,
    color_uv: Vector2I,
) -> AlphaTileVertex {
    AlphaTileVertex {
        tile_x: (tile_origin.x + tile_offset.x) as i16,
        tile_y: (tile_origin.y + tile_offset.y) as i16,
        color_u: color_uv.x as u16,
        color_v: color_uv.y as u16,
        mask_u: mask_coord((tile_index as int) % (MASK_TILES_ACROSS as int) + tile_offset.x) as u16,
        mask_v: mask_coord((tile_index as int) / (MASK_TILES_ACROSS as int) + tile_offset.y) as u16,
        backdrop,
        object_index,
    }
}

/// Whether `v` is a corner offset of a tile: each component zero or one.
pub open spec fn is_corner_offset(v: Vector2I) -> bool {
    0 <= v.x <= 1 && 0 <= v.y <= 1
}

impl AlphaTileVertex {
    /// The vertex at corner `tile_offset` of the tile at `tile_origin`, which
    /// uses mask tile `tile_index` and paint coordinates `color_uv`, already
    /// scaled to 16 bits.
    pub fn new(
        tile_origin: Vector2I,
        tile_index: u16,
        tile_offset: Vector2I,
        object_index: u16,
        backdrop: i16,
        color_uv: Vector2I,
    ) -> (r: AlphaTileVertex)
        requires
            is_corner_offset(tile_offset),
            tile_origin.x < i32::MAX,
            tile_origin.y < i32::MAX,
        ensures
            r == vertex_spec(tile_origin, tile_index, tile_offset, object_index, backdrop, color_uv),
    {
        let tile_position = Vector2I::new(tile_origin.x + tile_offset.x, tile_origin.y + tile_offset.y);
        let mask_u = (tile_index as u32 % MASK_TILES_ACROSS) as i32 + tile_offset.x;
        let mask_v = (tile_index as u32 / MASK_TILES_ACROSS) as i32 + tile_offset.y;
        let mask_u = mask_u * 65535 / MASK_TILES_ACROSS as i32;
        let mask_v = mask_v * 65535 / MASK_TILES_ACROSS as i32;
        AlphaTileVertex {
            tile_x: tile_position.x as i16,
            tile_y: tile_position.y as i16,
            color_u: color_uv.x as u16,
            color_v: color_uv.y as u16,
            mask_u: mask_u as u16,
            mask_v: mask_v as u16,
            object_index,
            backdrop,
        }
    }

    /// The tile coordinates of this vertex.
    pub fn tile_position(&self) -> (r: Vector2I)
        ensures
            r.x == self.tile_x,
            r.y == self.tile_y,
    {
        Vector2I::new(self.tile_x as i32, self.tile_y as i32)
    }
}

/// Whether a tile is dropped when packing: a solid tile that is either
/// transparent or covered by opaque paint.
pub open spec fn culled(t: TileObjectPrimitive, is_opaque: bool) -> bool {
    t.solid() && (t.backdrop == 0 || is_opaque)
}

/// Whether a tile is solid, covered, and painted opaque: it goes to the z-buffer.
pub open spec fn occludes(t: TileObjectPrimitive, is_opaque: bool) -> bool {
    t.solid() && t.backdrop != 0 && is_opaque
}

/// The index in `z_rect` of the tile at index `j` of `tile_rect`.
pub open spec fn z_index(z_rect: RectI, tile_rect: RectI, j: int) -> int {
    index_of(z_rect, coords_at(tile_rect, j).0, coords_at(tile_rect, j).1)
}

pub open spec fn max_u16(a: u16, b: u16) -> u16 {
    if a >= b {
        a
    } else {
        b
    }
}

/// The alpha tile for the tile at index `j` of `tiles`, whose four corners
/// have paint coordinates `color_uvs[4 * j]` to `color_uvs[4 * j + 3]`, in
/// the order upper left, upper right, lower left, lower right.
pub open spec fn alpha_tile_spec(
    tiles: DenseTileMap<TileObjectPrimitive>,
    j: int,
    object_index: u16,
    color_uvs: Seq<Vector2I>,
) -> AlphaTile {
    let origin = Vector2I {
        x: coords_at(tiles.rect, j).0 as i32,
        y: coords_at(tiles.rect, j).1 as i32,
    };
    let t = tiles.data@[j];
    AlphaTile {
        upper_left: vertex_spec(
            origin,
            t.alpha_tile_index,
            Vector2I { x: 0, y: 0 },
            object_index,
            t.backdrop as i16,
            color_uvs[4 * j],
        ),
        upper_right: vertex_spec(
            origin,
            t.alpha_tile_index,
            Vector2I { x: 1, y: 0 },
            object_index,
            t.backdrop as i16,
            color_uvs[4 * j + 1],
        ),
        lower_left: vertex_spec(
            origin,
            t.alpha_tile_index,
            Vector2I { x: 0, y: 1 },
            object_index,
            t.backdrop as i16,
            color_uvs[4 * j + 2],
        ),
        lower_right: vertex_spec(
            origin,
            t.alpha_tile_index,
            Vector2I { x: 1, y: 1 },
            object_index,
            t.backdrop as i16,
            color_uvs[4 * j + 3],
        ),
    }
}

/// The alpha tiles that the first `n` tiles of `tiles` produce, in order.
pub open spec fn packed(
    tiles: DenseTileMap<TileObjectPrimitive>,
    is_opaque: bool,
    object_index: u16,
    color_uvs: Seq<Vector2I>,
    n: int,
) -> Seq<AlphaTile>
    decreases n,
{
    if n <= 0 {
        Seq::empty()
    } else {
        let before = packed(tiles, is_opaque, object_index, color_uvs, n - 1);
        if culled(tiles.data@[n - 1], is_opaque) {
            before
        } else {
            before.push(alpha_tile_spec(tiles, n - 1, object_index, color_uvs))
        }
    }
}

/// Whether one of the first `n` tiles of `tiles` occludes entry `k` of a
/// z-buffer over `z_rect`.
pub open spec fn occluded_at(
    tiles: DenseTileMap<TileObjectPrimitive>,
    is_opaque: bool,
    z_rect: RectI,
    n: int,
    k: int,
) -> bool {
    exists|j: int|
        0 <= j < n && occludes(#[trigger] tiles.data@[j], is_opaque) && z_index(
            z_rect,
            tiles.rect,
            j,
        ) == k
}

/// For each tile, the index of the topmost opaque object that covers it.
#[derive(Debug)]
pub struct ZBuffer {
    pub depths: DenseTileMap<u16>,
}

impl ZBuffer {
    pub open spec fn wf(self) -> bool {
        self.depths.wf()
    }

    /// A z-buffer over `rect` that has seen no object.
    pub fn new(rect: RectI) -> (r: ZBuffer)
        requires
            rect_fits(rect),
        ensures
            r.wf(),
            r.depths.rect == rect,
            forall|k: int| 0 <= k < r.depths.data@.len() ==> #[trigger] r.depths.data@[k] == 0,
    {
        ZBuffer { depths: DenseTileMap::new_filled(rect, 0u16) }
    }

    /// Records that opaque object `object_index` covers the tile at `coords`;
    /// the entry keeps the larger of its old value and `object_index`.
    pub fn update(&mut self, coords: Vector2I, object_index: u16)
        requires
            old(self).wf(),
            rect_contains(old(self).depths.rect, coords),
        ensures
            final(self).wf(),
            final(self).depths.rect == old(self).depths.rect,
            ({
                let k = index_of(old(self).depths.rect, coords.x as int, coords.y as int);
                final(self).depths.data@ == old(self).depths.data@.update(
                    k,
                    max_u16(old(self).depths.data@[k], object_index),
                )
            }),
    {
        let index = self.depths.coords_to_index(coords).unwrap() as usize;
        let old_depth = self.depths.data[index];
        if old_depth < object_index {
            self.depths.data.set(index, object_index);
        } else {
            proof {
                assert(self.depths.data@ =~= self.depths.data@.update(index as int, old_depth));
            }
        }
    }
}

/// Packs the tiles of one drawn path. Solid tiles with no winding are
/// dropped; solid covered tiles of opaque paint go to the z-buffer; every
/// other tile becomes an alpha tile, in the order of `tiles`.
pub fn pack_and_cull(
    tiles: &DenseTileMap<TileObjectPrimitive>,
    object_index: u16,
    is_opaque: bool,
    color_uvs: &Vec<Vector2I>,
    z_buffer: &mut ZBuffer,
) -> (r: Vec<AlphaTile>)
    requires
        tiles.wf(),
        old(z_buffer).wf(),
        rect_within(tiles.rect, old(z_buffer).depths.rect),
        color_uvs@.len() == 4 * tiles.data@.len(),
    ensures
        r@ == packed(*tiles, is_opaque, object_index, color_uvs@, tiles.data@.len() as int),
        final(z_buffer).wf(),
        final(z_buffer).depths.rect == old(z_buffer).depths.rect,
        forall|k: int|
            0 <= k < old(z_buffer).depths.data@.len() ==> #[trigger] final(z_buffer).depths.data@[k]
                == if occluded_at(
                *tiles,
                is_opaque,
                old(z_buffer).depths.rect,
                tiles.data@.len() as int,
                k,
            ) {
                max_u16(old(z_buffer).depths.data@[k], object_index)
            } else {
                old(z_buffer).depths.data@[k]
            },
        forall|j: int|
            0 <= j < tiles.data@.len() && occludes(#[trigger] tiles.data@[j], is_opaque) ==> {
                let k = z_index(old(z_buffer).depths.rect, tiles.rect, j);
                final(z_buffer).depths.data@[k] == max_u16(
                    old(z_buffer).depths.data@[k],
                    object_index,
                )
            },
{
    let ghost z_rect = z_buffer.depths.rect;
    let ghost z0 = z_buffer.depths.data@;
    let mut alpha_tiles: Vec<AlphaTile> = Vec::new();
    let n = tiles.data.len();
    let m = color_uvs.len();
    let mut i: usize = 0;
    while i < n
        invariant
            n == tiles.data@.len(),
            tiles.wf(),
            color_uvs@.len() == 4 * n,
            m == color_uvs@.len(),
            i <= n,
            z_buffer.wf(),
            z_buffer.depths.rect == z_rect,
            z_buffer.depths.data@.len() == z0.len(),
            rect_within(tiles.rect, z_rect),
            alpha_tiles@ == packed(*tiles, is_opaque, object_index, color_uvs@, i as int),
            forall|k: int|
                0 <= k < z0.len() ==> #[trigger] z_buffer.depths.data@[k] == if occluded_at(
                    *tiles,
                    is_opaque,
                    z_rect,
                    i as int,
                    k,
                ) {
                    max_u16(z0[k], object_index)
                } else {
                    z0[k]
                },
        decreases n - i,
    {
        let tile = tiles.data[i];
        let tile_coords = tiles.index_to_coords(i as u32);
        let ghost zk = z_index(z_rect, tiles.rect, i as int);
        let ghost before = z_buffer.depths.data@;
        proof {
            assert(coords_at(tiles.rect, i as int).0 == tile_coords.x as int);
            assert(coords_at(tiles.rect, i as int).1 == tile_coords.y as int);
            assert(index_of(z_rect, tile_coords.x as int, tile_coords.y as int) == zk);
            lemma_index_in_range(z_rect, tile_coords.x as int, tile_coords.y as int);
        }
        if tile.is_solid() && (tile.backdrop == 0 || is_opaque) {
            if tile.backdrop != 0 {
                z_buffer.update(tile_coords, object_index);
            }
            proof {
                assert forall|k: int| 0 <= k < z0.len() implies #[trigger] z_buffer.depths.data@[k]
                    == if occluded_at(*tiles, is_opaque, z_rect, i + 1, k) {
                    max_u16(z0[k], object_index)
                } else {
                    z0[k]
                } by {
                    assert(before[k] == if occluded_at(*tiles, is_opaque, z_rect, i as int, k) {
                        max_u16(z0[k], object_index)
                    } else {
                        z0[k]
                    });
                    if tile.backdrop != 0 && k == zk {
                        assert(z_buffer.depths.data@[k] == max_u16(before[k], object_index));
                    } else {
                        assert(z_buffer.depths.data@[k] == before[k]);
                    }
                    if occluded_at(*tiles, is_opaque, z_rect, i + 1, k) && !occluded_at(
                        *tiles,
                        is_opaque,
                        z_rect,
                        i as int,
                        k,
                    ) {
                        let j = choose|j: int|
                            0 <= j < i + 1 && occludes(#[trigger] tiles.data@[j], is_opaque)
                                && z_index(z_rect, tiles.rect, j) == k;
                        assert(j == i);
                    }
                    if occluded_at(*tiles, is_opaque, z_rect, i as int, k) {
                        let j = choose|j: int|
                            0 <= j < i && occludes(#[trigger] tiles.data@[j], is_opaque)
                                && z_index(z_rect, tiles.rect, j) == k;
                        assert(0 <= j < i + 1);
                    }
                    if occludes(tile, is_opaque) && k == zk {
                        assert(tiles.data@[i as int] == tile);
                        assert(0 <= i < i + 1);
                    }
                }
            }
        } else {
            let upper_left = AlphaTileVertex::new(
                tile_coords,
                tile.alpha_tile_index,
                Vector2I::new(0, 0),
                object_index,
                tile.backdrop as i16,
                color_uvs[4 * i],
            );
            let upper_right = AlphaTileVertex::new(
                tile_coords,
                tile.alpha_tile_index,
                Vector2I::new(1, 0),
                object_index,
                tile.backdrop as i16,
                color_uvs[4 * i + 1],
            );
            let lower_left = AlphaTileVertex::new(
                tile_coords,
                tile.alpha_tile_index,
                Vector2I::new(0, 1),
                object_index,
                tile.backdrop as i16,
                color_uvs[4 * i + 2],
            );
            let lower_right = AlphaTileVertex::new(
                tile_coords,
                tile.alpha_tile_index,
                Vector2I::new(1, 1),
                object_index,
                tile.backdrop as i16,
                color_uvs[4 * i + 3],
            );
            alpha_tiles.push(AlphaTile { upper_left, upper_right, lower_left, lower_right });
            proof {
                assert forall|k: int| 0 <= k < z0.len() implies occluded_at(
                    *tiles,
                    is_opaque,
                    z_rect,
                    i + 1,
                    k,
                ) == occluded_at(*tiles, is_opaque, z_rect, i as int, k) by {
                    if occluded_at(*tiles, is_opaque, z_rect, i + 1, k) {
                        let j = choose|j: int|
                            0 <= j < i + 1 && occludes(#[trigger] tiles.data@[j], is_opaque)
                                && z_index(z_rect, tiles.rect, j) == k;
                        assert(j != i);
                    }
                    if occluded_at(*tiles, is_opaque, z_rect, i as int, k) {
                        let j = choose|j: int|
                            0 <= j < i && occludes(#[trigger] tiles.data@[j], is_opaque)
                                && z_index(z_rect, tiles.rect, j) == k;
                        assert(0 <= j < i + 1);
                    }
                }
            }
        }
        i += 1;
    }
    proof {
        assert forall|j: int|
            0 <= j < tiles.data@.len() && occludes(#[trigger] tiles.data@[j], is_opaque) implies {
                let k = z_index(z_rect, tiles.rect, j);
                z_buffer.depths.data@[k] == max_u16(z0[k], object_index)
            } by {
            let k = z_index(z_rect, tiles.rect, j);
            lemma_coords_at_inside(tiles.rect, j);
            lemma_index_in_range(z_rect, coords_at(tiles.rect, j).0, coords_at(tiles.rect, j).1);
            assert(occluded_at(*tiles, is_opaque, z_rect, n as int, k));
        }
    }
    alpha_tiles
}

/// `w` clamped into the range of an `i8`.
pub open spec fn clamp_i8(w: int) -> i8 {
    if w < -128 {
        -128i8
    } else if w > 127 {
        127i8
    } else {
        w as i8
    }
}

/// Whether the tile at index `k` of `rect` lies in row `tile_y`, from column
/// `from_x` up to but not including column `to_x`.
pub open spec fn in_row_span(rect: RectI, k: int, tile_y: int, from_x: int, to_x: int) -> bool {
    &&& coords_at(rect, k).1 == tile_y
    &&& from_x <= coords_at(rect, k).0 < to_x
}

/// `tiles` over `rect` with the backdrop of the tiles of row `tile_y`, from
/// column `from_x` up to but not including `to_x`, set to `backdrop`.
pub open spec fn with_backdrops(
    tiles: Seq<TileObjectPrimitive>,
    rect: RectI,
    tile_y: int,
    from_x: int,
    to_x: int,
    backdrop: i8,
) -> Seq<TileObjectPrimitive> {
    Seq::new(
        tiles.len(),
        |k: int|
            if in_row_span(rect, k, tile_y, from_x, to_x) {
                TileObjectPrimitive { alpha_tile_index: tiles[k].alpha_tile_index, backdrop }
            } else {
                tiles[k]
            },
    )
}

/// Between two neighbouring tiles of one row with no edge between them the
/// winding does not change: after `write_backdrops` over a span, every two
/// neighbours in the span have the same backdrop.
pub proof fn lemma_backdrop_consistency(
    tiles: Seq<TileObjectPrimitive>,
    rect: RectI,
    tile_y: int,
    from_x: int,
    to_x: int,
    backdrop: i8,
    x: int,
)
    requires
        rect_fits(rect),
        tiles.len() == rect.size.x * rect.size.y,
        from_x <= x,
        x + 1 < to_x,
        rect.origin.x <= x,
        x + 1 < rect.origin.x + rect.size.x,
        rect.origin.y <= tile_y < rect.origin.y + rect.size.y,
    ensures
        ({
            let after = with_backdrops(tiles, rect, tile_y, from_x, to_x, backdrop);
            &&& after[index_of(rect, x, tile_y)].backdrop == backdrop
            &&& after[index_of(rect, x + 1, tile_y)].backdrop == after[index_of(rect, x, tile_y)].backdrop
        }),
{
    lemma_index_in_range(rect, x, tile_y);
    lemma_index_in_range(rect, x + 1, tile_y);
    lemma_same_index_same_tile(rect, index_of(rect, x, tile_y), x, tile_y);
    lemma_same_index_same_tile(rect, index_of(rect, x + 1, tile_y), x + 1, tile_y);
}

/// Sets the backdrop of the tiles of row `tile_y`, from column `from_tile_x`
/// up to but not including `to_tile_x`, to `winding`, clamped to an `i8`.
/// Columns outside the map are skipped.
pub fn write_backdrops(
    tiles: &mut DenseTileMap<TileObjectPrimitive>,
    tile_y: i32,
    from_tile_x: i32,
    to_tile_x: i32,
    winding: i32,
)
    requires
        old(tiles).wf(),
    ensures
        final(tiles).wf(),
        final(tiles).rect == old(tiles).rect,
        forall|k: int|
            0 <= k < old(tiles).data@.len() ==> #[trigger] final(tiles).data@[k] == if in_row_span(
                old(tiles).rect,
                k,
                tile_y as int,
                from_tile_x as int,
                to_tile_x as int,
            ) {
                TileObjectPrimitive {
                    alpha_tile_index: old(tiles).data@[k].alpha_tile_index,
                    backdrop: clamp_i8(winding as int),
                }
            } else {
                old(tiles).data@[k]
            },
        final(tiles).data@ == with_backdrops(
            old(tiles).data@,
            old(tiles).rect,
            tile_y as int,
            from_tile_x as int,
            to_tile_x as int,
            clamp_i8(winding as int),
        ),
{
    let backdrop: i8 = if winding < -128 {
        -128
    } else if winding > 127 {
        127
    } else {
        winding as i8
    };
    let ghost rect = tiles.rect;
    let ghost start = tiles.data@;
    let mut x = from_tile_x;
    while x < to_tile_x
        invariant
            tiles.wf(),
            tiles.rect == rect,
            tiles.data@.len() == start.len(),
            backdrop == clamp_i8(winding as int),
            from_tile_x <= to_tile_x ==> from_tile_x <= x <= to_tile_x,
            from_tile_x > to_tile_x ==> x == from_tile_x,
            forall|k: int|
                0 <= k < start.len() ==> #[trigger] tiles.data@[k] == if in_row_span(
                    rect,
                    k,
                    tile_y as int,
                    from_tile_x as int,
                    x as int,
                ) {
                    TileObjectPrimitive {
                        alpha_tile_index: start[k].alpha_tile_index,
                        backdrop: backdrop,
                    }
                } else {
                    start[k]
                },
        decreases to_tile_x - x,
    {
        let ghost before = tiles.data@;
        if let Some(index) = tiles.coords_to_index(Vector2I::new(x, tile_y)) {
            let tile = tiles.data[index as usize];
            tiles.data.set(
                index as usize,
                TileObjectPrimitive { alpha_tile_index: tile.alpha_tile_index, backdrop },
            );
            proof {
                assert forall|k: int| 0 <= k < start.len() implies #[trigger] tiles.data@[k] == if in_row_span(
                    rect,
                    k,
                    tile_y as int,
                    from_tile_x as int,
                    x + 1,
                ) {
                    TileObjectPrimitive {
                        alpha_tile_index: start[k].alpha_tile_index,
                        backdrop: backdrop,
                    }
                } else {
                    start[k]
                } by {
                    assert(before[k] == if in_row_span(rect, k, tile_y as int, from_tile_x as int, x as int) {
                        TileObjectPrimitive {
                            alpha_tile_index: start[k].alpha_tile_index,
                            backdrop: backdrop,
                        }
                    } else {
                        start[k]
                    });
                    lemma_same_index_same_tile(rect, k, x as int, tile_y as int);
                }
            }
        } else {
            proof {
                assert forall|k: int| 0 <= k < start.len() implies in_row_span(
                    rect,
                    k,
                    tile_y as int,
                    from_tile_x as int,
                    x + 1,
                ) == in_row_span(rect, k, tile_y as int, from_tile_x as int, x as int) by {
                    lemma_coords_at_inside(rect, k);
                }
            }
        }
        x = x + 1;
    }
    proof {
        assert(tiles.data@ =~= with_backdrops(
            start,
            rect,
            tile_y as int,
            from_tile_x as int,
            to_tile_x as int,
            backdrop,
        ));
    }
}

/// The mask slot of the tile at `coords`: the one it holds, or, for a solid
/// tile, the next free slot, which the tile then keeps and the counter passes.
pub fn get_or_allocate_alpha_tile_index(
    tiles: &mut DenseTileMap<TileObjectPrimitive>,
    coords: Vector2I,
    next_alpha_tile_index: &mut u16,
) -> (r: u16)
    requires
        old(tiles).wf(),
        rect_contains(old(tiles).rect, coords),
        *old(next_alpha_tile_index) < SOLID_TILE_INDEX,
    ensures
        final(tiles).wf(),
        final(tiles).rect == old(tiles).rect,
        ({
            let k = index_of(old(tiles).rect, coords.x as int, coords.y as int);
            let t = old(tiles).data@[k];
            if t.solid() {
                &&& r == *old(next_alpha_tile_index)
                &&& *final(next_alpha_tile_index) == *old(next_alpha_tile_index) + 1
                &&& final(tiles).data@ == old(tiles).data@.update(
                    k,
                    TileObjectPrimitive { alpha_tile_index: r, backdrop: t.backdrop },
                )
            } else {
                &&& r == t.alpha_tile_index
                &&& *final(next_alpha_tile_index) == *old(next_alpha_tile_index)
                &&& final(tiles).data@ == old(tiles).data@
            }
        }),
{
    let index = tiles.coords_to_index(coords).unwrap() as usize;
    let tile = tiles.data[index];
    if !tile.is_solid() {
        return tile.alpha_tile_index;
    }
    let alpha_tile_index = *next_alpha_tile_index;
    *next_alpha_tile_index = alpha_tile_index + 1;
    tiles.data.set(index, TileObjectPrimitive { alpha_tile_index, backdrop: tile.backdrop });
    alpha_tile_index
}

/// The tile at index `k` of `rect` is the tile at `(x, y)` exactly when
/// `(x, y)` lies inside `rect` and has index `k`.
proof fn lemma_same_index_same_tile(rect: RectI, k: int, x: int, y: int)
    requires
        rect_fits(rect),
        0 <= k < rect.size.x * rect.size.y,
        rect.origin.x <= x < rect.origin.x + rect.size.x,
        rect.origin.y <= y < rect.origin.y + rect.size.y,
    ensures
        (coords_at(rect, k) == (x, y)) <==> (k == index_of(rect, x, y)),
{
    let w = rect.size.x as int;
    let dx = x - rect.origin.x;
    let dy = y - rect.origin.y;
    vstd::arithmetic::div_mod::lemma_fundamental_div_mod(k, w);
    assert(w > 0);
    if k == index_of(rect, x, y) {
        assert(k == dy * w + dx);
        vstd::arithmetic::div_mod::lemma_fundamental_div_mod_converse(k, w, dy, dx);
    }
    if coords_at(rect, k) == (x, y) {
        assert(k % w == dx && k / w == dy);
        assert(k == dy * w + dx) by (nonlinear_arith)
            requires
                k == w * (k / w) + k % w,
                k % w == dx,
                k / w == dy,
        ;
    }
}

/// The tile at an index of `rect` lies inside `rect`.
proof fn lemma_coords_at_inside(rect: RectI, k: int)
    requires
        rect_fits(rect),
        0 <= k < rect.size.x * rect.size.y,
    ensures
        rect.origin.x <= coords_at(rect, k).0 < rect.origin.x + rect.size.x,
        rect.origin.y <= coords_at(rect, k).1 < rect.origin.y + rect.size.y,
{
    let w = rect.size.x as int;
    let h = rect.size.y as int;
    assert(w > 0) by (nonlinear_arith)
        requires
            0 <= k < w * h,
            h >= 0,
    ;
    assert(k / w < h) by (nonlinear_arith)
        requires
            0 <= k < w * h,
            w > 0,
    ;
    vstd::arithmetic::div_mod::lemma_fundamental_div_mod(k, w);
}

/// The largest endpoint coordinate of a fill, in 4.8 fixed point within a tile.
pub const FILL_COORD_MAX: i32 = 4095;

/// A fill's line segment packed for the fill shader: whole pixels in 4 bits
/// per component (`x` low, `y` high) and the fractional parts in 8 bits.
#[derive(Clone, Copy, Debug, PartialEq, Eq, Structural)]
pub struct PackedFill {
    pub px_from: u8,
    pub px_to: u8,
    pub subpx_from_x: u8,
    pub subpx_from_y: u8,
    pub subpx_to_x: u8,
    pub subpx_to_y: u8,
}

/// The whole-pixel byte of a 4.8 fixed-point point: the pixel column in the
/// low four bits, the pixel row in the high four.
pub open spec fn pack_px(x: int, y: int) -> int {
    x / 256 + 16 * (y / 256)
}

/// Packs a fill from `(from_x, from_y)` to `(to_x, to_y)`, in 4.8 fixed
/// point relative to its tile. A fill with no horizontal extent covers
/// nothing and is culled.
pub fn pack_fill(from_x: i32, from_y: i32, to_x: i32, to_y: i32) -> (r: Option<PackedFill>)
    requires
        0 <= from_x <= FILL_COORD_MAX,
        0 <= from_y <= FILL_COORD_MAX,
        0 <= to_x <= FILL_COORD_MAX,
        0 <= to_y <= FILL_COORD_MAX,
    ensures
        r is None <==> from_x == to_x,
        r matches Some(p) ==> {
            &&& p.px_from == pack_px(from_x as int, from_y as int)
            &&& p.px_to == pack_px(to_x as int, to_y as int)
            &&& p.subpx_from_x == from_x % 256
            &&& p.subpx_from_y == from_y % 256
            &&& p.subpx_to_x == to_x % 256
            &&& p.subpx_to_y == to_y % 256
        },
{
    if from_x == to_x {
        return None;
    }
    Some(
        PackedFill {
            px_from: (from_x / 256 + 16 * (from_y / 256)) as u8,
            px_to: (to_x / 256 + 16 * (to_y / 256)) as u8,
            subpx_from_x: (from_x % 256) as u8,
            subpx_from_y: (from_y % 256) as u8,
            subpx_to_x: (to_x % 256) as u8,
            subpx_to_y: (to_y % 256) as u8,
        },
    )
}

} // verus!
