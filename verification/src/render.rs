//! Snapshot rendering: flat byte buffers for the canvas and for the boundary
//! region mask, ready for a raster writer.

use vstd::prelude::*;
use crate::boundary::BoundaryRegion;
use crate::canvas::Canvas;
use crate::color::Color;
use crate::geom::{
    Coordinate, coord_of, lemma_slot_bound, lemma_slot_injective, lemma_slot_surjective, slot,
    spec_in_bounds,
};

verus! {

/// How a cell appears in the output raster: its color at full precision, or
/// the all-zero sentinel for an uncolored cell.
pub open spec fn rendered(cell: Option<Color>) -> (u8, u8, u8) {
    match cell {
        Some(c) => (c.r, c.g, c.b),
        None => (0u8, 0u8, 0u8),
    }
}

/// Renders the canvas as flat RGB bytes in row-major order, three bytes per
/// cell, uncolored cells as the all-zero sentinel.
pub fn render_rgb(canvas: &Canvas) -> (buf: Vec<u8>)
    requires
        canvas.wf(),
        3 * (canvas.width * canvas.height) <= usize::MAX,
    ensures
        buf@.len() == 3 * canvas.cells@.len(),
        forall|i: int|
            0 <= i < canvas.cells@.len() ==> buf@[3 * i] == rendered(#[trigger] canvas.cells@[i]).0
                && buf@[3 * i + 1] == rendered(canvas.cells@[i]).1 && buf@[3 * i + 2] == rendered(
                canvas.cells@[i],
            ).2,
{
    let total: usize = (canvas.width as usize) * (canvas.height as usize);
    let mut buf: Vec<u8> = Vec::new();
    let mut i: usize = 0;
    while i < total
        invariant
            canvas.wf(),
            total == canvas.cells@.len(),
            3 * total <= usize::MAX,
            i <= total,
            buf@.len() == 3 * i,
            forall|j: int|
                0 <= j < i ==> buf@[3 * j] == rendered(#[trigger] canvas.cells@[j]).0 && buf@[3 * j
                    + 1] == rendered(canvas.cells@[j]).1 && buf@[3 * j + 2] == rendered(
                    canvas.cells@[j],
                ).2,
        decreases total - i,
    {
        match self_cell(canvas, i) {
            Some(c) => {
                buf.push(c.r);
                buf.push(c.g);
                buf.push(c.b);
            },
            None => {
                buf.push(0);
                buf.push(0);
                buf.push(0);
            },
        }
        i = i + 1;
    }
    buf
}

/// Reads the cell at flat index `i`.
fn self_cell(canvas: &Canvas, i: usize) -> (r: Option<Color>)
    requires
        canvas.wf(),
        i < canvas.cells@.len(),
    ensures
        r == canvas.cells@[i as int],
{
    canvas.cells[i]
}

/// Renders the boundary region as a single-channel mask in row-major order:
/// 255 for a member, 0 otherwise.
pub fn render_mask(region: &BoundaryRegion) -> (buf: Vec<u8>)
    requires
        region.wf(),
    ensures
        buf@.len() == region.width * region.height,
        forall|c: Coordinate|
            spec_in_bounds(c, region.width, region.height) ==> buf@[slot(c, region.width)] == (
            if region@.contains(c) {
                255u8
            } else {
                0u8
            }),
{
    let total: usize = (region.width as usize) * (region.height as usize);
    let mut buf: Vec<u8> = Vec::new();
    let mut x: u32 = 0;
    let mut y: u32 = 0;
    let mut i: usize = 0;
    while i < total
        invariant
            region.wf(),
            total == region.width * region.height,
            i <= total,
            i == y * region.width + x,
            x < region.width || (x == 0 && y == region.height),
            y <= region.height,
            buf@.len() == i,
            forall|j: int|
                0 <= j < i ==> buf@[j] == (if region@.contains(#[trigger] coord_of(
                    j,
                    region.width,
                )) {
                    255u8
                } else {
                    0u8
                }),
        decreases total - i,
    {
        proof {
            if !(x < region.width) {
                assert(i == region.height * region.width);
                vstd::arithmetic::mul::lemma_mul_is_commutative(
                    region.height as int,
                    region.width as int,
                );
                assert(false);
            }
            if !(y < region.height) {
                assert(y == region.height);
                vstd::arithmetic::mul::lemma_mul_is_commutative(
                    region.height as int,
                    region.width as int,
                );
                assert(i >= total);
                assert(false);
            }
        }
        let c = Coordinate { x, y };
        proof {
            lemma_slot_bound(c, region.width, region.height);
            lemma_slot_surjective(i as int, region.width, region.height);
            lemma_slot_injective(coord_of(i as int, region.width), c, region.width, region.height);
        }
        if region.contains(c) {
            buf.push(255);
        } else {
            buf.push(0);
        }
        i = i + 1;
        x = x + 1;
        if x == region.width {
            proof {
                assert((y + 1) * region.width == y * region.width + region.width)
                    by (nonlinear_arith);
            }
            x = 0;
            y = y + 1;
        }
    }
    proof {
        assert forall|c: Coordinate|
            spec_in_bounds(c, region.width, region.height) implies buf@[slot(c, region.width)] == (
        if region@.contains(c) {
            255u8
        } else {
            0u8
        }) by {
            lemma_slot_bound(c, region.width, region.height);
            let j = slot(c, region.width);
            lemma_slot_surjective(j, region.width, region.height);
            lemma_slot_injective(coord_of(j, region.width), c, region.width, region.height);
        }
    }
    buf
}

} // verus!
