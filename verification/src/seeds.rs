//! Seed-position helpers: the built-in column pattern and the shift from
//! 1-indexed configuration coordinates onto the canvas.

use vstd::prelude::*;
use crate::geom::Coordinate;

verus! {

/// The output canvas dimensions.
#[derive(Clone, Copy, PartialEq, Eq, Structural, Debug)]
pub struct Constraints {
    pub x_size: u32,
    pub y_size: u32,
}

/// The built-in seed pattern: one seed at x = 256 on every 64th row (rows
/// 63, 127, ... up to y_size - 2). Positions may fall outside a narrow
/// canvas; `Engine::place_seed` refuses those.
pub fn get_initial_locations(working_constraints: &Constraints) -> (r: Vec<Coordinate>)
    requires
        working_constraints.y_size >= 1,
    ensures
        r@.len() == (working_constraints.y_size - 1) as int / 64,
        forall|k: int|
            0 <= k < r@.len() ==> r@[k] == (Coordinate { x: 256u32, y: (64 * (k + 1) - 1) as u32 }),
{
    let mut starting_points: Vec<Coordinate> = Vec::new();
    let mut i: u32 = 0;
    while i < working_constraints.y_size - 1
        invariant
            working_constraints.y_size >= 1,
            i <= working_constraints.y_size - 1,
            starting_points@.len() == i as int / 64,
            forall|k: int|
                0 <= k < starting_points@.len() ==> starting_points@[k] == (Coordinate {
                    x: 256u32,
                    y: (64 * (k + 1) - 1) as u32,
                }),
        decreases working_constraints.y_size - 1 - i,
    {
        if (i + 1) % 64 == 0 {
            proof {
                assert((i + 1) as int / 64 == i as int / 64 + 1);
                assert(64 * (i as int / 64 + 1) - 1 == i);
            }
            starting_points.push(Coordinate { x: 256, y: i });
        } else {
            proof {
                assert((i + 1) as int / 64 == i as int / 64);
            }
        }
        i = i + 1;
    }
    starting_points
}

/// Shifts a 1-indexed configuration position onto the 0-indexed canvas,
/// clamping to the canvas edge: position 0 or 1 lands on 0, anything past
/// the far edge lands on the last cell.
pub fn clamp_seed_axis(pos: u32, size: u32) -> (r: u32)
    requires
        size >= 1,
    ensures
        r == if pos <= 1 {
            0u32
        } else if pos - 1 < size {
            (pos - 1) as u32
        } else {
            (size - 1) as u32
        },
        r < size,
{
    if pos <= 1 {
        0
    } else if pos - 1 < size {
        pos - 1
    } else {
        size - 1
    }
}

/// Shifts a 1-indexed configuration coordinate onto the canvas, both axes
/// clamped.
pub fn clamp_seed(pos: (u32, u32), width: u32, height: u32) -> (c: Coordinate)
    requires
        width >= 1,
        height >= 1,
    ensures
        c.x == if pos.0 <= 1 {
            0u32
        } else if pos.0 - 1 < width {
            (pos.0 - 1) as u32
        } else {
            (width - 1) as u32
        },
        c.y == if pos.1 <= 1 {
            0u32
        } else if pos.1 - 1 < height {
            (pos.1 - 1) as u32
        } else {
            (height - 1) as u32
        },
        crate::geom::spec_in_bounds(c, width, height),
    {
    Coordinate { x: clamp_seed_axis(pos.0, width), y: clamp_seed_axis(pos.1, height) }
}

} // verus!
