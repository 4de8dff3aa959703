//! A dense grid of per-tile records over a rectangle of tile coordinates.

use vstd::prelude::*;
use crate::geometry::{RectI, Vector2I};

verus! {

/// Whether `rect` has a non-negative size and all its coordinates, one past
/// its far edges included, fit in an `i32`, and its area fits in a `u32`.
pub open spec fn rect_fits(rect: RectI) -> bool {
    &&& rect.size.x >= 0
    &&& rect.size.y >= 0
    &&& rect.origin.x + rect.size.x < i32::MAX
    &&& rect.origin.y + rect.size.y < i32::MAX
    &&& rect.size.x * rect.size.y <= u32::MAX
}

/// Whether `coords` lies inside `rect`.
pub open spec fn rect_contains(rect: RectI, coords: Vector2I) -> bool {
    &&& rect.origin.x <= coords.x < rect.origin.x + rect.size.x
    &&& rect.origin.y <= coords.y < rect.origin.y + rect.size.y
}

/// The row-major index of the tile at `(x, y)` in `rect`.
pub open spec fn index_of(rect: RectI, x: int, y: int) -> int {
    (y - rect.origin.y) * rect.size.x + (x - rect.origin.x)
}

/// Whether every tile of `inner` is a tile of `outer`.
pub open spec fn rect_within(inner: RectI, outer: RectI) -> bool {
    &&& outer.origin.x <= inner.origin.x
    &&& inner.origin.x + inner.size.x <= outer.origin.x + outer.size.x
    &&& outer.origin.y <= inner.origin.y
    &&& inner.origin.y + inner.size.y <= outer.origin.y + outer.size.y
}

/// The coordinates at row-major index `index` of `rect`.
pub open spec fn coords_at(rect: RectI, index: int) -> (int, int) {
    (rect.origin.x + index % (rect.size.x as int), rect.origin.y + index / (rect.size.x as int))
}

/// The index of a tile inside `rect` lies among the indices of `rect`.
pub proof fn lemma_index_in_range(rect: RectI, x: int, y: int)
    requires
        rect.origin.x <= x < rect.origin.x + rect.size.x,
        rect.origin.y <= y < rect.origin.y + rect.size.y,
    ensures
        0 <= index_of(rect, x, y) < rect.size.x * rect.size.y,
{
    let w = rect.size.x as int;
    let h = rect.size.y as int;
    let dx = x - rect.origin.x;
    let dy = y - rect.origin.y;
    assert(0 <= dy * w + dx < w * h) by (nonlinear_arith)
        requires
            0 <= dy < h,
            0 <= dx < w,
    ;
}

/// A grid of records, one per tile of `rect`, stored row by row.
#[derive(Debug)]
pub struct DenseTileMap<T> {
    pub data: Vec<T>,
    pub rect: RectI,
}

impl<T: Copy> DenseTileMap<T> {
    pub open spec fn wf(self) -> bool {
        &&& rect_fits(self.rect)
        &&& self.data@.len() == self.rect.size.x * self.rect.size.y
    }

    /// A map over `rect` with every entry set to `value`.
    pub fn new_filled(rect: RectI, value: T) -> (r: DenseTileMap<T>)
        requires
            rect_fits(rect),
        ensures
            r.wf(),
            r.rect == rect,
            forall|i: int| 0 <= i < r.data@.len() ==> #[trigger] r.data@[i] == value,
    {
        let area = (rect.size.x as u32) as u64 * (rect.size.y as u32) as u64;
        let mut data: Vec<T> = Vec::new();
        let mut i: u64 = 0;
        while i < area
            invariant
                i <= area,
                area == rect.size.x * rect.size.y,
                area <= u32::MAX,
                data@.len() == i,
                forall|k: int| 0 <= k < data@.len() ==> #[trigger] data@[k] == value,
            decreases area - i,
        {
            data.push(value);
            i += 1;
        }
        DenseTileMap { data, rect }
    }

    /// The index of the entry for `coords`, if `coords` lies inside the map.
    pub fn coords_to_index(&self, coords: Vector2I) -> (r: Option<u32>)
        requires
            self.wf(),
        ensures
            r is Some <==> rect_contains(self.rect, coords),
            r matches Some(i) ==> i == index_of(self.rect, coords.x as int, coords.y as int) && i < self.data@.len(),
    {
        if coords.x < self.rect.origin.x || coords.x >= self.rect.origin.x + self.rect.size.x
            || coords.y < self.rect.origin.y || coords.y >= self.rect.origin.y + self.rect.size.y {
            return None;
        }
        let dx = (coords.x - self.rect.origin.x) as u32;
        let dy = (coords.y - self.rect.origin.y) as u32;
        let w = self.rect.size.x as u32;
        proof {
            let h = self.rect.size.y as int;
            assert(dy * w + dx < w * h) by (nonlinear_arith)
                requires
                    dy < h,
                    dx < w,
            ;
        }
        Some(dy * w + dx)
    }

    /// The coordinates of the entry at `index`.
    pub fn index_to_coords(&self, index: u32) -> (r: Vector2I)
        requires
            self.wf(),
            index < self.data@.len(),
        ensures
            (r.x as int, r.y as int) == coords_at(self.rect, index as int),
            rect_contains(self.rect, r),
            index_of(self.rect, r.x as int, r.y as int) == index,
    {
        let w = self.rect.size.x as u32;
        proof {
            let h = self.rect.size.y as int;
            assert(w > 0) by (nonlinear_arith)
                requires
                    index < w * h,
                    h >= 0,
            ;
            assert(index / w < h) by (nonlinear_arith)
                requires
                    index < w * h,
                    w > 0,
            ;
            vstd::arithmetic::div_mod::lemma_fundamental_div_mod(index as int, w as int);
            assert((index / w) * w + index % w == index) by (nonlinear_arith)
                requires
                    index == w * (index / w) + index % w,
            ;
        }
        let x = self.rect.origin.x + (index % w) as i32;
        let y = self.rect.origin.y + (index / w) as i32;
        Vector2I::new(x, y)
    }
}

} // verus!
