//! Coordinates, canvas bounds, and the 8-neighborhood.

use vstd::prelude::*;

verus! {

/// A position on the canvas: `0 <= x < width`, `0 <= y < height`.
#[derive(Clone, Copy, PartialEq, Eq, Structural, Debug)]
pub struct Coordinate {
    pub x: u32,
    pub y: u32,
}

/// Whether `c` lies inside a `width` by `height` canvas.
pub open spec fn spec_in_bounds(c: Coordinate, width: u32, height: u32) -> bool {
    c.x < width && c.y < height
}

/// The row-major index of an in-bounds coordinate.
pub open spec fn slot(c: Coordinate, width: u32) -> int {
    c.y * width + c.x
}

/// Two coordinates are 8-neighbors when they differ and each axis differs by
/// at most one (Chebyshev distance 1).
pub open spec fn is_neighbor(a: Coordinate, b: Coordinate) -> bool {
    &&& !(a.x == b.x && a.y == b.y)
    &&& -1 <= a.x - b.x <= 1
    &&& -1 <= a.y - b.y <= 1
}

/// The x offset of the `k`-th entry of the shared 8-neighbor offset table,
/// enumerated row-major over the 3 by 3 block with the center skipped.
pub open spec fn off_dx(k: int) -> int {
    if k < 3 {
        -1
    } else if k < 5 {
        0
    } else {
        1
    }
}

/// The y offset of the `k`-th entry of the 8-neighbor offset table.
pub open spec fn off_dy(k: int) -> int {
    if k == 0 || k == 3 || k == 5 {
        -1
    } else if k == 1 || k == 6 {
        0
    } else {
        1
    }
}

/// The `k`-th neighbor of `c`, or `None` when it falls off the canvas.
pub open spec fn neighbor_at(c: Coordinate, k: int, width: u32, height: u32) -> Option<
    Coordinate,
> {
    let nx = c.x + off_dx(k);
    let ny = c.y + off_dy(k);
    if 0 <= nx < width && 0 <= ny < height {
        Some(Coordinate { x: nx as u32, y: ny as u32 })
    } else {
        None
    }
}

/// The index in the offset table at which the offset `(dx, dy)` stands.
pub open spec fn offset_index(dx: int, dy: int) -> int {
    if dx == -1 {
        dy + 1
    } else if dx == 0 {
        if dy == -1 {
            3
        } else {
            4
        }
    } else {
        dy + 6
    }
}

/// The offset table enumerates exactly the in-bounds 8-neighbors: `n` is an
/// in-bounds neighbor of `c` iff some table entry reaches it.
pub proof fn lemma_neighbor_iff(c: Coordinate, n: Coordinate, width: u32, height: u32)
    ensures
        (spec_in_bounds(n, width, height) && is_neighbor(c, n)) <==> exists|k: int|
            0 <= k < 8 && neighbor_at(c, k, width, height) == Some(n),
{
    if spec_in_bounds(n, width, height) && is_neighbor(c, n) {
        let k = offset_index(n.x - c.x, n.y - c.y);
        assert(0 <= k < 8);
        assert(neighbor_at(c, k, width, height) == Some(n));
    }
    if exists|k: int| 0 <= k < 8 && neighbor_at(c, k, width, height) == Some(n) {
        let k = choose|k: int| 0 <= k < 8 && neighbor_at(c, k, width, height) == Some(n);
        assert(spec_in_bounds(n, width, height));
        assert(is_neighbor(c, n));
    }
}

impl Coordinate {
    pub fn new(x: u32, y: u32) -> (c: Coordinate)
        ensures
            c == (Coordinate { x, y }),
    {
        Coordinate { x, y }
    }

    /// Computes the `k`-th in-bounds neighbor, following the offset table.
    pub fn neighbor(&self, k: usize, width: u32, height: u32) -> (n: Option<Coordinate>)
        requires
            k < 8,
            spec_in_bounds(*self, width, height),
        ensures
            n == neighbor_at(*self, k as int, width, height),
    {
        let dx: i64 = if k < 3 {
            -1
        } else if k < 5 {
            0
        } else {
            1
        };
        let dy: i64 = if k == 0 || k == 3 || k == 5 {
            -1
        } else if k == 1 || k == 6 {
            0
        } else {
            1
        };
        let nx: i64 = self.x as i64 + dx;
        let ny: i64 = self.y as i64 + dy;
        if 0 <= nx && nx < width as i64 && 0 <= ny && ny < height as i64 {
            Some(Coordinate { x: nx as u32, y: ny as u32 })
        } else {
            None
        }
    }
}

/// An in-bounds coordinate's row-major index lies below `width * height`.
pub proof fn lemma_slot_bound(c: Coordinate, width: u32, height: u32)
    requires
        spec_in_bounds(c, width, height),
    ensures
        0 <= slot(c, width) < width * height,
{
    assert(c.y * width + c.x < width * height) by (nonlinear_arith)
        requires
            c.x < width,
            c.y < height,
    ;
    assert(c.y * width >= 0) by (nonlinear_arith)
        requires
            c.y >= 0,
            width >= 0,
    ;
}

/// The coordinate whose row-major index is `i`.
pub open spec fn coord_of(i: int, width: u32) -> Coordinate {
    Coordinate { x: (i % (width as int)) as u32, y: (i / (width as int)) as u32 }
}

/// Every row-major index below `width * height` is some in-bounds
/// coordinate's index.
pub proof fn lemma_slot_surjective(i: int, width: u32, height: u32)
    requires
        width >= 1,
        height >= 1,
        0 <= i < width * height,
    ensures
        spec_in_bounds(coord_of(i, width), width, height),
        slot(coord_of(i, width), width) == i,
{
    let w = width as int;
    vstd::arithmetic::div_mod::lemma_fundamental_div_mod(i, w);
    vstd::arithmetic::div_mod::lemma_mod_bound(i, w);
    vstd::arithmetic::div_mod::lemma_div_pos_is_pos(i, w);
    vstd::arithmetic::div_mod::lemma_multiply_divide_lt(i, w, height as int);
    vstd::arithmetic::mul::lemma_mul_is_commutative(w, i / w);
}

/// Distinct in-bounds coordinates occupy distinct row-major indices.
pub proof fn lemma_slot_injective(a: Coordinate, b: Coordinate, width: u32, height: u32)
    requires
        spec_in_bounds(a, width, height),
        spec_in_bounds(b, width, height),
        slot(a, width) == slot(b, width),
    ensures
        a == b,
{
    assert(a.y == b.y && a.x == b.x) by (nonlinear_arith)
        requires
            a.x < width,
            b.x < width,
            a.y * width + a.x == b.y * width + b.x,
            a.x >= 0,
            b.x >= 0,
            a.y >= 0,
            b.y >= 0,
    ;
}

} // verus!
