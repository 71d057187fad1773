//! Candidate scoring: a candidate's score is the arithmetic mean, over its
//! colored 8-neighbors, of the color distance to each of them. The mean is
//! kept exact as the pair (sum, neighbor count) and compared as a rational.

use vstd::prelude::*;
use crate::canvas::Canvas;
use crate::color::{Color, dist2, lemma_dist2_bounds};
use crate::geom::{
    Coordinate, is_neighbor, lemma_neighbor_iff, neighbor_at, slot, spec_in_bounds,
};

verus! {

/// Whether at least one in-bounds 8-neighbor of `c` is colored.
pub open spec fn has_colored_neighbor(
    cells: Seq<Option<Color>>,
    width: u32,
    height: u32,
    c: Coordinate,
) -> bool {
    exists|n: Coordinate|
        spec_in_bounds(n, width, height) && is_neighbor(c, n) && cells[slot(n, width)] is Some
}

/// The score accumulated over the first `k` entries of the offset table:
/// the summed color distance to the colored neighbors seen so far, and how
/// many there were.
pub open spec fn score_upto(
    cells: Seq<Option<Color>>,
    width: u32,
    height: u32,
    c: Coordinate,
    color: Color,
    k: int,
) -> (int, int)
    decreases k,
{
    if k <= 0 {
        (0, 0)
    } else {
        let prev = score_upto(cells, width, height, c, color, k - 1);
        match neighbor_at(c, k - 1, width, height) {
            Some(n) => match cells[slot(n, width)] {
                Some(nc) => (prev.0 + dist2(color, nc), prev.1 + 1),
                None => prev,
            },
            None => prev,
        }
    }
}

/// A candidate's full score: summed distance and colored-neighbor count over
/// all eight table entries.
pub open spec fn score_at(
    cells: Seq<Option<Color>>,
    width: u32,
    height: u32,
    c: Coordinate,
    color: Color,
) -> (int, int) {
    score_upto(cells, width, height, c, color, 8)
}

/// `a` is a strictly better (smaller) mean than `b`: `a.0/a.1 < b.0/b.1`,
/// compared without division.
pub open spec fn score_lt(a: (int, int), b: (int, int)) -> bool {
    a.0 * b.1 < b.0 * a.1
}

/// `a` and `b` are exactly equal means.
pub open spec fn score_eq(a: (int, int), b: (int, int)) -> bool {
    a.0 * b.1 == b.0 * a.1
}

/// `a`'s mean is no larger than `b`'s.
pub open spec fn score_le(a: (int, int), b: (int, int)) -> bool {
    a.0 * b.1 <= b.0 * a.1
}

/// Rational comparison is transitive over pairs with positive denominators.
pub proof fn lemma_score_le_trans(a: (int, int), b: (int, int), c: (int, int))
    requires
        a.1 > 0,
        b.1 > 0,
        c.1 > 0,
        score_le(a, b),
        score_le(b, c),
    ensures
        score_le(a, c),
{
    assert(a.0 * c.1 <= c.0 * a.1) by (nonlinear_arith)
        requires
            a.1 > 0,
            b.1 > 0,
            c.1 > 0,
            a.0 * b.1 <= b.0 * a.1,
            b.0 * c.1 <= c.0 * b.1,
    ;
}

/// Bounds on every partial score: the count never exceeds the number of
/// entries seen, and each colored neighbor adds at most `3 * 255 * 255`.
pub proof fn lemma_score_upto_bounds(
    cells: Seq<Option<Color>>,
    width: u32,
    height: u32,
    c: Coordinate,
    color: Color,
    k: int,
)
    requires
        0 <= k <= 8,
    ensures
        0 <= score_upto(cells, width, height, c, color, k).1 <= k,
        0 <= score_upto(cells, width, height, c, color, k).0 <= k * (3 * 255 * 255),
    decreases k,
{
    if k > 0 {
        lemma_score_upto_bounds(cells, width, height, c, color, k - 1);
        assert((k - 1) * (3 * 255 * 255) + (3 * 255 * 255) == k * (3 * 255 * 255))
            by (nonlinear_arith);
        match neighbor_at(c, k - 1, width, height) {
            Some(n) => match cells[slot(n, width)] {
                Some(nc) => {
                    lemma_dist2_bounds(color, nc);
                },
                None => {},
            },
            None => {},
        }
    }
}

/// The product of two 32-bit values fits in 64 bits.
proof fn lemma_mul_u32_fits(a: int, b: int)
    requires
        0 <= a <= u32::MAX,
        0 <= b <= u32::MAX,
    ensures
        0 <= a * b <= u64::MAX,
{
    assert(0 <= a * b && a * b <= u32::MAX * u32::MAX) by (nonlinear_arith)
        requires
            0 <= a <= u32::MAX,
            0 <= b <= u32::MAX,
    ;
}

/// The colored-neighbor count is monotone in the number of entries seen.
proof fn lemma_score_upto_count_monotone(
    cells: Seq<Option<Color>>,
    width: u32,
    height: u32,
    c: Coordinate,
    color: Color,
    j: int,
    k: int,
)
    requires
        0 <= j <= k,
    ensures
        score_upto(cells, width, height, c, color, j).1 <= score_upto(
            cells,
            width,
            height,
            c,
            color,
            k,
        ).1,
    decreases k - j,
{
    if j < k {
        lemma_score_upto_count_monotone(cells, width, height, c, color, j, k - 1);
    }
}

/// Every candidate with a colored neighbor scores a neighbor count of at
/// least one: a boundary member is never scored over zero neighbors.
pub proof fn lemma_score_count_positive(
    cells: Seq<Option<Color>>,
    width: u32,
    height: u32,
    c: Coordinate,
    color: Color,
)
    requires
        has_colored_neighbor(cells, width, height, c),
    ensures
        score_at(cells, width, height, c, color).1 >= 1,
{
    let n = choose|n: Coordinate|
        spec_in_bounds(n, width, height) && is_neighbor(c, n) && cells[slot(n, width)] is Some;
    lemma_neighbor_iff(c, n, width, height);
    let k = choose|k: int| 0 <= k < 8 && neighbor_at(c, k, width, height) == Some(n);
    lemma_score_upto_bounds(cells, width, height, c, color, k);
    assert(score_upto(cells, width, height, c, color, k + 1).1 >= 1);
    lemma_score_upto_count_monotone(cells, width, height, c, color, k + 1, 8);
}

/// An exact candidate score: the summed color distance over the candidate's
/// colored neighbors, and how many neighbors contributed. The mean score is
/// `sum / count`; comparisons cross-multiply instead of dividing.
#[derive(Clone, Copy, PartialEq, Eq, Structural, Debug)]
pub struct Score {
    pub sum: u32,
    pub count: u32,
}

impl Score {
    pub open spec fn view(&self) -> (int, int) {
        (self.sum as int, self.count as int)
    }

    /// Whether this mean is strictly smaller than `other`'s.
    pub fn less_than(&self, other: &Score) -> (r: bool)
        ensures
            r == score_lt(self@, other@),
    {
        proof {
            lemma_mul_u32_fits(self.sum as int, other.count as int);
            lemma_mul_u32_fits(other.sum as int, self.count as int);
        }
        (self.sum as u64) * (other.count as u64) < (other.sum as u64) * (self.count as u64)
    }

    /// Whether this mean exactly equals `other`'s.
    pub fn equal_to(&self, other: &Score) -> (r: bool)
        ensures
            r == score_eq(self@, other@),
    {
        proof {
            lemma_mul_u32_fits(self.sum as int, other.count as int);
            lemma_mul_u32_fits(other.sum as int, self.count as int);
        }
        (self.sum as u64) * (other.count as u64) == (other.sum as u64) * (self.count as u64)
    }
}

/// Scores one boundary candidate for `color`: walks the candidate's eight
/// possible neighbors and accumulates the color distance to the colored ones.
pub fn evaluate_position(canvas: &Canvas, c: Coordinate, color: Color) -> (s: Score)
    requires
        canvas.wf(),
        spec_in_bounds(c, canvas.width, canvas.height),
    ensures
        s@ == score_at(canvas.cells@, canvas.width, canvas.height, c, color),
        s.sum <= 8 * 3 * 255 * 255,
        s.count <= 8,
{
    let mut sum: u32 = 0;
    let mut count: u32 = 0;
    let mut k: usize = 0;
    while k < 8
        invariant
            canvas.wf(),
            spec_in_bounds(c, canvas.width, canvas.height),
            k <= 8,
            (sum as int, count as int) == score_upto(
                canvas.cells@,
                canvas.width,
                canvas.height,
                c,
                color,
                k as int,
            ),
            sum <= k * (3 * 255 * 255),
            count <= k,
        decreases 8 - k,
    {
        proof {
            lemma_score_upto_bounds(canvas.cells@, canvas.width, canvas.height, c, color, k + 1);
        }
        match c.neighbor(k, canvas.width, canvas.height) {
            Some(n) => {
                proof {
                    crate::geom::lemma_slot_bound(n, canvas.width, canvas.height);
                }
                match canvas.cell_at(n) {
                    Some(nc) => {
                        proof {
                            lemma_dist2_bounds(color, nc);
                        }
                        let d = color.distance2(&nc);
                        proof {
                            assert(sum <= 7 * (3 * 255 * 255)) by (nonlinear_arith)
                                requires
                                    k <= 7,
                                    sum <= k * (3 * 255 * 255),
                            ;
                        }
                        sum = sum + d;
                        count = count + 1;
                    },
                    None => {},
                }
            },
            None => {},
        }
        k = k + 1;
    }
    Score { sum, count }
}

} // verus!
