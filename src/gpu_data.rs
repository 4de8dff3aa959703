//! Packed data ready to be sent to the GPU.

use vstd::prelude::*;

verus! {

/// The index of a paint texture page.
#[derive(Clone, Copy, Debug, PartialEq, Eq, Structural)]
pub struct PaintPageId(pub u32);

/// The alpha-tile index that marks a tile as solid: it needs no mask.
pub const SOLID_TILE_INDEX: u16 = 0xFFFF;

/// What the tiler records for one tile of a path.
#[derive(Clone, Copy, Debug, PartialEq, Eq, Structural)]
pub struct TileObjectPrimitive {
    /// If `SOLID_TILE_INDEX`, then this is a solid tile.
    pub alpha_tile_index: u16,
    /// The winding that edges to the left of the tile contribute.
    pub backdrop: i8,
}

/// A vertex of a solid tile.
#[derive(Clone, Copy, Debug, PartialEq, Eq, Structural)]
pub struct SolidTileVertex {
    pub tile_x: i16,
    pub tile_y: i16,
    pub color_u: u16,
    pub color_v: u16,
    pub object_index: u16,
    pub pad: u16,
}

/// The four corners of a tile drawn through a coverage mask.
#[derive(Clone, Copy, Debug, Default, PartialEq, Eq, Structural)]
pub struct AlphaTile {
    pub upper_left: AlphaTileVertex,
    pub upper_right: AlphaTileVertex,
    pub lower_left: AlphaTileVertex,
    pub lower_right: AlphaTileVertex,
}

/// A corner of an alpha tile.
#[derive(Clone, Copy, Debug, Default, PartialEq, Eq, Structural)]
pub struct AlphaTileVertex {
    pub tile_x: i16,
    pub tile_y: i16,
    pub color_u: u16,
    pub color_v: u16,
    pub mask_u: u16,
    pub mask_v: u16,
    pub backdrop: i16,
    pub object_index: u16,
}

impl TileObjectPrimitive {
    pub open spec fn solid(self) -> bool {
        self.alpha_tile_index == SOLID_TILE_INDEX
    }

    /// Whether the tile needs no mask.
    pub fn is_solid(&self) -> (r: bool)
        ensures
            r == self.solid(),
    {
        self.alpha_tile_index == SOLID_TILE_INDEX
    }
}

impl Default for TileObjectPrimitive {
    /// A solid tile with no winding.
    fn default() -> (r: TileObjectPrimitive)
        ensures
            r.alpha_tile_index == SOLID_TILE_INDEX,
            r.backdrop == 0,
    {
        TileObjectPrimitive { backdrop: 0, alpha_tile_index: SOLID_TILE_INDEX }
    }
}

} // verus!
