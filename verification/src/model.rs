//! The mathematical model of the placement engine. Every exec step of the
//! engine is pinned (for deterministic tie-break sources) to the spec
//! functions here, and the boundary-region invariant is proved preserved at
//! this level.

use vstd::prelude::*;
use crate::canvas::{
    count_colored, lemma_count_colored_bounds, lemma_count_colored_full,
    lemma_count_colored_update, lemma_count_pos_exists, lemma_count_short_exists,
};
use crate::color::Color;
use crate::geom::{
    Coordinate, coord_of, is_neighbor, lemma_neighbor_iff, lemma_slot_bound,
    lemma_slot_injective, lemma_slot_surjective, neighbor_at, slot, spec_in_bounds,
};
use crate::score::{
    has_colored_neighbor, lemma_score_count_positive, score_at, score_eq, score_lt,
};
use crate::tie::{TieBreaker, spec_flip};

verus! {

/// The engine's state as mathematics: the grid contents and the frontier in
/// its exact dense order. The tie-break source travels beside it.
pub struct GrowModel {
    pub width: u32,
    pub height: u32,
    pub cells: Seq<Option<Color>>,
    pub frontier: Seq<Coordinate>,
}

/// No coordinate occurs twice.
pub open spec fn distinct(f: Seq<Coordinate>) -> bool {
    forall|i: int, j: int| 0 <= i < j < f.len() ==> f[i] != f[j]
}

/// Every entry lies on the canvas.
pub open spec fn all_in_bounds(f: Seq<Coordinate>, width: u32, height: u32) -> bool {
    forall|i: int| 0 <= i < f.len() ==> spec_in_bounds(#[trigger] f[i], width, height)
}

/// The defining frontier property: a coordinate is a member exactly when its
/// cell is uncolored and at least one 8-neighbor is colored.
pub open spec fn boundary_exact(m: GrowModel) -> bool {
    forall|c: Coordinate|
        #![trigger slot(c, m.width)]
        #![trigger m.frontier.contains(c)]
        spec_in_bounds(c, m.width, m.height) ==> (m.frontier.contains(c) <==> (m.cells[slot(
            c,
            m.width,
        )] is None && has_colored_neighbor(m.cells, m.width, m.height, c)))
}

/// The engine invariant, holding at every point between placements.
pub open spec fn inv(m: GrowModel) -> bool {
    &&& m.width >= 1
    &&& m.height >= 1
    &&& m.width * m.height <= usize::MAX
    &&& m.cells.len() == m.width * m.height
    &&& distinct(m.frontier)
    &&& all_in_bounds(m.frontier, m.width, m.height)
    &&& boundary_exact(m)
}

/// Removal by swapping the last entry into the vacated position.
pub open spec fn swap_remove_seq(f: Seq<Coordinate>, i: int) -> Seq<Coordinate> {
    f.update(i, f.last()).drop_last()
}

/// What swap-removal does to membership.
pub proof fn lemma_swap_remove_membership(f: Seq<Coordinate>, i: int)
    requires
        0 <= i < f.len(),
        distinct(f),
    ensures
        swap_remove_seq(f, i).len() == f.len() - 1,
        distinct(swap_remove_seq(f, i)),
        forall|x: Coordinate|
            #[trigger] swap_remove_seq(f, i).contains(x) <==> (f.contains(x) && x != f[i]),
        forall|j: int| 0 <= j < f.len() - 1 ==> f.contains(#[trigger] swap_remove_seq(f, i)[j]),
{
    let g = swap_remove_seq(f, i);
    assert forall|x: Coordinate| #[trigger] g.contains(x) implies (f.contains(x) && x != f[i]) by {
        let j = choose|j: int| 0 <= j < g.len() && g[j] == x;
        if j == i {
            assert(f[f.len() - 1] == x);
        } else {
            assert(f[j] == x);
        }
    }
    assert forall|x: Coordinate| f.contains(x) && x != f[i] implies #[trigger] g.contains(x) by {
        let j = choose|j: int| 0 <= j < f.len() && f[j] == x;
        if j == f.len() - 1 {
            assert(i < f.len() - 1);
            assert(g[i] == x);
        } else {
            assert(g[j] == x);
        }
    }
    assert forall|j: int| 0 <= j < f.len() - 1 implies f.contains(#[trigger] g[j]) by {
        if j == i {
            assert(g[j] == f[f.len() - 1]);
        } else {
            assert(g[j] == f[j]);
        }
    }
}

/// Folds the in-bounds, still-uncolored neighbors of `c` into the frontier,
/// one offset-table entry at a time, skipping members already present.
pub open spec fn insert_neighbors_from(
    cells: Seq<Option<Color>>,
    width: u32,
    height: u32,
    f: Seq<Coordinate>,
    c: Coordinate,
    k: int,
) -> Seq<Coordinate>
    decreases 8 - k,
{
    if k >= 8 {
        f
    } else {
        let f2 = match neighbor_at(c, k, width, height) {
            Some(n) => if cells[slot(n, width)] is None && !f.contains(n) {
                f.push(n)
            } else {
                f
            },
            None => f,
        };
        insert_neighbors_from(cells, width, height, f2, c, k + 1)
    }
}

/// What the neighbor fold does to membership: it adds exactly the in-bounds
/// uncolored neighbors reached by the remaining offset-table entries.
pub proof fn lemma_insert_membership(
    cells: Seq<Option<Color>>,
    width: u32,
    height: u32,
    f: Seq<Coordinate>,
    c: Coordinate,
    k: int,
)
    requires
        0 <= k <= 8,
        distinct(f),
        all_in_bounds(f, width, height),
    ensures
        distinct(insert_neighbors_from(cells, width, height, f, c, k)),
        all_in_bounds(insert_neighbors_from(cells, width, height, f, c, k), width, height),
        forall|x: Coordinate|
            #[trigger] insert_neighbors_from(cells, width, height, f, c, k).contains(x) <==> (
            f.contains(x) || exists|j: int|
                k <= j < 8 && #[trigger] neighbor_at(c, j, width, height) == Some(x) && cells[slot(
                    x,
                    width,
                )] is None),
    decreases 8 - k,
{
    if k >= 8 {
    } else {
        let f2 = match neighbor_at(c, k, width, height) {
            Some(n) => if cells[slot(n, width)] is None && !f.contains(n) {
                f.push(n)
            } else {
                f
            },
            None => f,
        };
        // f2 keeps distinctness and bounds
        match neighbor_at(c, k, width, height) {
            Some(n) => {
                if cells[slot(n, width)] is None && !f.contains(n) {
                    assert forall|i: int, j: int| 0 <= i < j < f2.len() implies f2[i] != f2[j] by {
                        if j == f.len() {
                            assert(f2[j] == n);
                            assert(f.contains(f[i]));
                        }
                    }
                    assert forall|i: int|
                        0 <= i < f2.len() implies spec_in_bounds(
                        #[trigger] f2[i],
                        width,
                        height,
                    ) by {
                        if i < f.len() {
                            assert(f2[i] == f[i]);
                        } else {
                            assert(f2[i] == n);
                        }
                    }
                }
            },
            None => {},
        }
        lemma_insert_membership(cells, width, height, f2, c, k + 1);
        let g = insert_neighbors_from(cells, width, height, f, c, k);
        assert(g == insert_neighbors_from(cells, width, height, f2, c, k + 1));
        assert forall|x: Coordinate| #[trigger] g.contains(x) implies (f.contains(x) || exists|
            j: int,
        |
            k <= j < 8 && #[trigger] neighbor_at(c, j, width, height) == Some(x) && cells[slot(
                x,
                width,
            )] is None) by {
            if f2.contains(x) {
                if f.contains(x) {
                } else {
                    // x was pushed at entry k
                    let j = choose|j: int| 0 <= j < f2.len() && f2[j] == x;
                    if j < f.len() {
                        assert(f[j] == x);
                    } else {
                        assert(neighbor_at(c, k, width, height) == Some(x));
                    }
                }
            } else {
                let j = choose|j: int|
                    k + 1 <= j < 8 && neighbor_at(c, j, width, height) == Some(x) && cells[slot(
                        x,
                        width,
                    )] is None;
                assert(k <= j < 8 && neighbor_at(c, j, width, height) == Some(x) && cells[slot(
                    x,
                    width,
                )] is None);
            }
        }
        assert forall|x: Coordinate|
            (f.contains(x) || exists|j: int|
                k <= j < 8 && #[trigger] neighbor_at(c, j, width, height) == Some(x) && cells[slot(
                    x,
                    width,
                )] is None) implies #[trigger] g.contains(x) by {
            if f.contains(x) {
                let j = choose|j: int| 0 <= j < f.len() && f[j] == x;
                assert(f2[j] == x);
                assert(f2.contains(x));
            } else {
                let j = choose|j: int|
                    k <= j < 8 && neighbor_at(c, j, width, height) == Some(x) && cells[slot(
                        x,
                        width,
                    )] is None;
                if j == k {
                    // either x was already in f2, or it gets pushed here
                    if f2.contains(x) {
                    } else {
                        match neighbor_at(c, k, width, height) {
                            Some(n) => {
                                assert(n == x);
                                if cells[slot(n, width)] is None && !f.contains(n) {
                                    assert(f2[f.len() as int] == x);
                                    assert(f2.contains(x));
                                } else {
                                    assert(f.contains(n));
                                    let jj = choose|jj: int| 0 <= jj < f.len() && f[jj] == x;
                                    assert(f2[jj] == x);
                                    assert(f2.contains(x));
                                }
                            },
                            None => {},
                        }
                    }
                } else {
                    assert(k + 1 <= j < 8 && neighbor_at(c, j, width, height) == Some(x) && cells[
                        slot(x, width)] is None);
                }
            }
        }
    }
}

/// Coloring cell `c` extends colored-neighborhood exactly by adjacency to `c`.
pub proof fn lemma_hcn_update(
    cells: Seq<Option<Color>>,
    width: u32,
    height: u32,
    c: Coordinate,
    color: Color,
    x: Coordinate,
)
    requires
        cells.len() == width * height,
        width >= 1,
        height >= 1,
        spec_in_bounds(c, width, height),
        spec_in_bounds(x, width, height),
        x != c,
    ensures
        has_colored_neighbor(cells.update(slot(c, width), Some(color)), width, height, x) <==> (
        has_colored_neighbor(cells, width, height, x) || is_neighbor(x, c)),
{
    let cells2 = cells.update(slot(c, width), Some(color));
    lemma_slot_bound(c, width, height);
    if has_colored_neighbor(cells2, width, height, x) {
        let n = choose|n: Coordinate|
            spec_in_bounds(n, width, height) && is_neighbor(x, n) && cells2[slot(n, width)]
                is Some;
        lemma_slot_bound(n, width, height);
        if n == c {
        } else {
            if slot(n, width) == slot(c, width) {
                lemma_slot_injective(n, c, width, height);
            }
            assert(cells[slot(n, width)] is Some);
        }
    }
    if has_colored_neighbor(cells, width, height, x) {
        let n = choose|n: Coordinate|
            spec_in_bounds(n, width, height) && is_neighbor(x, n) && cells[slot(n, width)] is Some;
        lemma_slot_bound(n, width, height);
        assert(cells2[slot(n, width)] is Some);
        assert(has_colored_neighbor(cells2, width, height, x));
    }
    if is_neighbor(x, c) {
        assert(cells2[slot(c, width)] is Some);
        assert(spec_in_bounds(c, width, height) && is_neighbor(x, c) && cells2[slot(c, width)]
            is Some);
        assert(has_colored_neighbor(cells2, width, height, x));
    }
}

/// Commits `color` at `c` against a frontier from which `c` has already been
/// removed: the resulting state keeps the invariant, colors exactly one more
/// cell, and `c` leaves the frontier for good.
pub proof fn lemma_commit_core(m: GrowModel, f1: Seq<Coordinate>, c: Coordinate, color: Color)
    requires
        inv(m),
        spec_in_bounds(c, m.width, m.height),
        m.cells[slot(c, m.width)] is None,
        distinct(f1),
        all_in_bounds(f1, m.width, m.height),
        forall|x: Coordinate| #[trigger] f1.contains(x) <==> (m.frontier.contains(x) && x != c),
    ensures
        ({
            let cells2 = m.cells.update(slot(c, m.width), Some(color));
            let m2 = GrowModel {
                cells: cells2,
                frontier: insert_neighbors_from(cells2, m.width, m.height, f1, c, 0),
                ..m
            };
            &&& inv(m2)
            &&& count_colored(m2.cells) == count_colored(m.cells) + 1
            &&& m2.cells[slot(c, m.width)] == Some(color)
            &&& !m2.frontier.contains(c)
            &&& forall|d: Coordinate|
                spec_in_bounds(d, m.width, m.height) && d != c ==> m2.cells[slot(d, m.width)]
                    == m.cells[slot(d, m.width)]
        }),
{
    let cells2 = m.cells.update(slot(c, m.width), Some(color));
    let g = insert_neighbors_from(cells2, m.width, m.height, f1, c, 0);
    let m2 = GrowModel { cells: cells2, frontier: g, ..m };
    lemma_slot_bound(c, m.width, m.height);
    lemma_count_colored_update(m.cells, slot(c, m.width), color);
    lemma_insert_membership(cells2, m.width, m.height, f1, c, 0);
    // unchanged cells at other coordinates
    assert forall|d: Coordinate|
        spec_in_bounds(d, m.width, m.height) && d != c implies m2.cells[slot(d, m.width)]
        == m.cells[slot(d, m.width)] by {
        lemma_slot_bound(d, m.width, m.height);
        if slot(d, m.width) == slot(c, m.width) {
            lemma_slot_injective(d, c, m.width, m.height);
        }
    }
    // the committed coordinate never re-enters the frontier
    assert(!g.contains(c)) by {
        if g.contains(c) {
            if f1.contains(c) {
            } else {
                let j = choose|j: int|
                    0 <= j < 8 && neighbor_at(c, j, m.width, m.height) == Some(c) && cells2[slot(
                        c,
                        m.width,
                    )] is None;
            }
        }
    }
    // the boundary property holds of the new state
    assert forall|x: Coordinate| spec_in_bounds(x, m.width, m.height) implies (#[trigger] m2.frontier.contains(
        x,
    ) <==> (m2.cells[slot(x, m.width)] is None && has_colored_neighbor(
        m2.cells,
        m.width,
        m.height,
        x,
    ))) by {
        lemma_slot_bound(x, m.width, m.height);
        if x == c {
            assert(m2.cells[slot(c, m.width)] is Some);
        } else {
            lemma_hcn_update(m.cells, m.width, m.height, c, color, x);
            lemma_neighbor_iff(c, x, m.width, m.height);
            if slot(x, m.width) == slot(c, m.width) {
                lemma_slot_injective(x, c, m.width, m.height);
            }
            // membership in g, unfolded through the two membership lemmas
            if g.contains(x) {
                if f1.contains(x) {
                    assert(m.frontier.contains(x));
                    assert(m.cells[slot(x, m.width)] is None && has_colored_neighbor(
                        m.cells,
                        m.width,
                        m.height,
                        x,
                    ));
                } else {
                    let j = choose|j: int|
                        0 <= j < 8 && #[trigger] neighbor_at(c, j, m.width, m.height) == Some(x)
                            && cells2[slot(x, m.width)] is None;
                    assert(is_neighbor(c, x));
                    assert(is_neighbor(x, c));
                }
            }
            if m2.cells[slot(x, m.width)] is None && has_colored_neighbor(
                m2.cells,
                m.width,
                m.height,
                x,
            ) {
                assert(m.cells[slot(x, m.width)] is None);
                if has_colored_neighbor(m.cells, m.width, m.height, x) {
                    assert(m.frontier.contains(x));
                    assert(f1.contains(x));
                    assert(g.contains(x));
                } else {
                    assert(is_neighbor(x, c));
                    assert(is_neighbor(c, x));
                    let j = choose|j: int|
                        0 <= j < 8 && #[trigger] neighbor_at(c, j, m.width, m.height) == Some(x);
                    assert(g.contains(x));
                }
            }
        }
    }
}

/// The selection scan, from entry `k` on, with `best` the index of the best
/// candidate so far. On a strictly better score the candidate is adopted; on
/// an exact tie one tie-break choice decides; otherwise the best is kept.
pub open spec fn select_from(
    m: GrowModel,
    color: Color,
    k: int,
    best: int,
    tb: TieBreaker,
) -> (int, TieBreaker)
    decreases m.frontier.len() - k,
{
    if k >= m.frontier.len() {
        (best, tb)
    } else {
        let sc = score_at(m.cells, m.width, m.height, m.frontier[k], color);
        let bs = score_at(m.cells, m.width, m.height, m.frontier[best], color);
        if score_lt(sc, bs) {
            select_from(m, color, k + 1, k, tb)
        } else if score_eq(sc, bs) {
            let f = spec_flip(tb);
            select_from(m, color, k + 1, if f.0 {
                best
            } else {
                k
            }, f.1)
        } else {
            select_from(m, color, k + 1, best, tb)
        }
    }
}

/// Which frontier position the next color lands on, and the tie-break state
/// afterwards.
pub open spec fn spec_select(m: GrowModel, color: Color, tb: TieBreaker) -> (int, TieBreaker) {
    select_from(m, color, 1, 0, tb)
}

/// The selected position is always a valid frontier position.
pub proof fn lemma_select_from_in_range(
    m: GrowModel,
    color: Color,
    k: int,
    best: int,
    tb: TieBreaker,
)
    requires
        0 <= k,
        0 <= best < m.frontier.len(),
    ensures
        0 <= select_from(m, color, k, best, tb).0 < m.frontier.len(),
    decreases m.frontier.len() - k,
{
    if k < m.frontier.len() {
        let sc = score_at(m.cells, m.width, m.height, m.frontier[k], color);
        let bs = score_at(m.cells, m.width, m.height, m.frontier[best], color);
        if score_lt(sc, bs) {
            lemma_select_from_in_range(m, color, k + 1, k, tb);
        } else if score_eq(sc, bs) {
            let f = spec_flip(tb);
            lemma_select_from_in_range(m, color, k + 1, if f.0 {
                best
            } else {
                k
            }, f.1);
        } else {
            lemma_select_from_in_range(m, color, k + 1, best, tb);
        }
    }
}

/// Commits `color` at frontier position `i`: colors the cell, swap-removes
/// the position, and folds the new uncolored neighbors into the frontier.
pub open spec fn spec_place(m: GrowModel, i: int, color: Color) -> GrowModel {
    let c = m.frontier[i];
    let cells2 = m.cells.update(slot(c, m.width), Some(color));
    let f1 = swap_remove_seq(m.frontier, i);
    GrowModel {
        cells: cells2,
        frontier: insert_neighbors_from(cells2, m.width, m.height, f1, c, 0),
        ..m
    }
}

/// One full placement: select, then commit at the selected position; the
/// advanced tie-break state rides along.
pub open spec fn spec_step(m: GrowModel, color: Color, tb: TieBreaker) -> (
    GrowModel,
    TieBreaker,
) {
    let s = spec_select(m, color, tb);
    (spec_place(m, s.0, color), s.1)
}

/// Seeding: colors `c` directly, removing it from the frontier should an
/// earlier seed have put it there, then folds in its uncolored neighbors.
pub open spec fn spec_seed(m: GrowModel, c: Coordinate, color: Color) -> GrowModel {
    let f1 = if m.frontier.contains(c) {
        swap_remove_seq(m.frontier, m.frontier.index_of(c))
    } else {
        m.frontier
    };
    let cells2 = m.cells.update(slot(c, m.width), Some(color));
    GrowModel {
        cells: cells2,
        frontier: insert_neighbors_from(cells2, m.width, m.height, f1, c, 0),
        ..m
    }
}

/// Placing at a frontier position keeps the invariant and colors exactly one
/// previously uncolored cell.
pub proof fn lemma_place_preserves_inv(m: GrowModel, i: int, color: Color)
    requires
        inv(m),
        0 <= i < m.frontier.len(),
    ensures
        ({
            let c = m.frontier[i];
            let m2 = spec_place(m, i, color);
            &&& inv(m2)
            &&& m2.width == m.width && m2.height == m.height
            &&& count_colored(m2.cells) == count_colored(m.cells) + 1
            &&& m.cells[slot(c, m.width)] is None
            &&& m2.cells[slot(c, m.width)] == Some(color)
            &&& !m2.frontier.contains(c)
            &&& forall|d: Coordinate|
                spec_in_bounds(d, m.width, m.height) && d != c ==> m2.cells[slot(d, m.width)]
                    == m.cells[slot(d, m.width)]
        }),
{
    let c = m.frontier[i];
    assert(m.frontier.contains(c));
    assert(spec_in_bounds(c, m.width, m.height));
    assert(m.cells[slot(c, m.width)] is None);
    lemma_swap_remove_membership(m.frontier, i);
    let f1 = swap_remove_seq(m.frontier, i);
    assert(all_in_bounds(f1, m.width, m.height)) by {
        assert forall|j: int|
            0 <= j < f1.len() implies spec_in_bounds(#[trigger] f1[j], m.width, m.height) by {
            assert(m.frontier.contains(f1[j]));
            let jj = choose|jj: int| 0 <= jj < m.frontier.len() && m.frontier[jj] == f1[j];
        }
    }
    lemma_commit_core(m, f1, c, color);
}

/// One engine step keeps the invariant, colors exactly one previously
/// uncolored cell, and never recolors a colored cell.
pub proof fn lemma_step_preserves_inv(m: GrowModel, color: Color, tb: TieBreaker)
    requires
        inv(m),
        m.frontier.len() > 0,
    ensures
        ({
            let m2 = spec_step(m, color, tb).0;
            &&& inv(m2)
            &&& m2.width == m.width && m2.height == m.height
            &&& count_colored(m2.cells) == count_colored(m.cells) + 1
            &&& forall|d: Coordinate|
                spec_in_bounds(d, m.width, m.height) && m.cells[slot(d, m.width)] is Some
                    ==> m2.cells[slot(d, m.width)] == m.cells[slot(d, m.width)]
        }),
{
    let s = spec_select(m, color, tb);
    lemma_select_from_in_range(m, color, 1, 0, tb);
    lemma_place_preserves_inv(m, s.0, color);
}

/// Seeding an uncolored cell keeps the invariant and colors exactly one more
/// cell.
pub proof fn lemma_seed_preserves_inv(m: GrowModel, c: Coordinate, color: Color)
    requires
        inv(m),
        spec_in_bounds(c, m.width, m.height),
        m.cells[slot(c, m.width)] is None,
    ensures
        ({
            let m2 = spec_seed(m, c, color);
            &&& inv(m2)
            &&& m2.width == m.width && m2.height == m.height
            &&& count_colored(m2.cells) == count_colored(m.cells) + 1
            &&& m2.cells[slot(c, m.width)] == Some(color)
            &&& !m2.frontier.contains(c)
            &&& forall|d: Coordinate|
                spec_in_bounds(d, m.width, m.height) && d != c ==> m2.cells[slot(d, m.width)]
                    == m.cells[slot(d, m.width)]
        }),
{
    if m.frontier.contains(c) {
        let i = m.frontier.index_of(c);
        assert(0 <= i < m.frontier.len() && m.frontier[i] == c);
        lemma_swap_remove_membership(m.frontier, i);
        let f1 = swap_remove_seq(m.frontier, i);
        assert(all_in_bounds(f1, m.width, m.height)) by {
            assert forall|j: int|
                0 <= j < f1.len() implies spec_in_bounds(#[trigger] f1[j], m.width, m.height) by {
                assert(m.frontier.contains(f1[j]));
                let jj = choose|jj: int| 0 <= jj < m.frontier.len() && m.frontier[jj] == f1[j];
            }
        }
        lemma_commit_core(m, f1, c, color);
    } else {
        assert forall|x: Coordinate| #[trigger] m.frontier.contains(x) implies (m.frontier.contains(
            x,
        ) && x != c) by {}
        lemma_commit_core(m, m.frontier, c, color);
    }
}

/// Runs the engine over `queue` from position `qi` until the queue or the
/// frontier is exhausted.
pub open spec fn spec_run_from(m: GrowModel, queue: Seq<Color>, qi: int, tb: TieBreaker) -> (
    GrowModel,
    TieBreaker,
)
    decreases queue.len() - qi,
{
    if qi >= queue.len() || m.frontier.len() == 0 {
        (m, tb)
    } else {
        let st = spec_step(m, queue[qi], tb);
        spec_run_from(st.0, queue, qi + 1, st.1)
    }
}

/// A whole run: every placement from the front of the queue on.
pub open spec fn spec_run(m: GrowModel, queue: Seq<Color>, tb: TieBreaker) -> (
    GrowModel,
    TieBreaker,
) {
    spec_run_from(m, queue, 0, tb)
}

/// A run keeps the invariant and the canvas dimensions, and never recolors a
/// colored cell.
pub proof fn lemma_run_preserves_inv(m: GrowModel, queue: Seq<Color>, qi: int, tb: TieBreaker)
    requires
        inv(m),
    ensures
        ({
            let m2 = spec_run_from(m, queue, qi, tb).0;
            &&& inv(m2)
            &&& m2.width == m.width && m2.height == m.height
            &&& count_colored(m2.cells) >= count_colored(m.cells)
            &&& forall|d: Coordinate|
                spec_in_bounds(d, m.width, m.height) && m.cells[slot(d, m.width)] is Some
                    ==> m2.cells[slot(d, m.width)] == m.cells[slot(d, m.width)]
        }),
    decreases queue.len() - qi,
{
    if qi >= queue.len() || m.frontier.len() == 0 {
    } else {
        lemma_step_preserves_inv(m, queue[qi], tb);
        let st = spec_step(m, queue[qi], tb);
        lemma_run_preserves_inv(st.0, queue, qi + 1, st.1);
    }
}

/// Every frontier member is scored over at least one colored neighbor.
pub proof fn lemma_frontier_member_has_neighbor(m: GrowModel, i: int, color: Color)
    requires
        inv(m),
        0 <= i < m.frontier.len(),
    ensures
        score_at(m.cells, m.width, m.height, m.frontier[i], color).1 >= 1,
{
    let c = m.frontier[i];
    assert(m.frontier.contains(c));
    assert(has_colored_neighbor(m.cells, m.width, m.height, c));
    lemma_score_count_positive(m.cells, m.width, m.height, c, color);
}

/// The walking distance between two coordinates.
pub open spec fn manhattan(a: Coordinate, b: Coordinate) -> int {
    (if a.x >= b.x {
        a.x - b.x
    } else {
        b.x - a.x
    }) + (if a.y >= b.y {
        a.y - b.y
    } else {
        b.y - a.y
    })
}

/// The grid is connected: wherever a colored and an uncolored cell coexist,
/// some uncolored cell touches a colored one.
pub proof fn lemma_grid_connected(
    cells: Seq<Option<Color>>,
    width: u32,
    height: u32,
    a: Coordinate,
    b: Coordinate,
)
    requires
        cells.len() == width * height,
        width >= 1,
        height >= 1,
        spec_in_bounds(a, width, height),
        spec_in_bounds(b, width, height),
        cells[slot(a, width)] is Some,
        cells[slot(b, width)] is None,
    ensures
        exists|c: Coordinate|
            spec_in_bounds(c, width, height) && cells[slot(c, width)] is None
                && #[trigger] has_colored_neighbor(cells, width, height, c),
    decreases manhattan(a, b),
{
    assert(a != b);
    let a2 = if a.x < b.x {
        Coordinate { x: (a.x + 1) as u32, y: a.y }
    } else if a.x > b.x {
        Coordinate { x: (a.x - 1) as u32, y: a.y }
    } else if a.y < b.y {
        Coordinate { x: a.x, y: (a.y + 1) as u32 }
    } else {
        Coordinate { x: a.x, y: (a.y - 1) as u32 }
    };
    assert(spec_in_bounds(a2, width, height));
    assert(is_neighbor(a2, a));
    lemma_slot_bound(a2, width, height);
    if cells[slot(a2, width)] is None {
        assert(spec_in_bounds(a, width, height) && is_neighbor(a2, a) && cells[slot(a, width)]
            is Some);
        assert(has_colored_neighbor(cells, width, height, a2));
    } else {
        assert(manhattan(a2, b) == manhattan(a, b) - 1);
        lemma_grid_connected(cells, width, height, a2, b);
    }
}

/// While some cell is colored and some is not, the frontier cannot be empty:
/// the engine never stalls before the canvas is full.
pub proof fn lemma_frontier_nonempty(m: GrowModel)
    requires
        inv(m),
        count_colored(m.cells) > 0,
        count_colored(m.cells) < m.cells.len(),
    ensures
        m.frontier.len() > 0,
{
    lemma_count_pos_exists(m.cells);
    lemma_count_short_exists(m.cells);
    let i = choose|i: int| 0 <= i < m.cells.len() && m.cells[i] is Some;
    let j = choose|j: int| 0 <= j < m.cells.len() && m.cells[j] is None;
    lemma_slot_surjective(i, m.width, m.height);
    lemma_slot_surjective(j, m.width, m.height);
    lemma_grid_connected(m.cells, m.width, m.height, coord_of(i, m.width), coord_of(j, m.width));
    let c = choose|c: Coordinate|
        spec_in_bounds(c, m.width, m.height) && m.cells[slot(c, m.width)] is None
            && #[trigger] has_colored_neighbor(m.cells, m.width, m.height, c);
    assert(m.frontier.contains(c));
}

/// A full canvas has an empty frontier: boundary members are uncolored.
pub proof fn lemma_full_canvas_has_empty_frontier(m: GrowModel)
    requires
        inv(m),
        count_colored(m.cells) == m.cells.len(),
    ensures
        m.frontier.len() == 0,
{
    lemma_count_colored_full(m.cells);
    if m.frontier.len() > 0 {
        let c = m.frontier[0];
        assert(m.frontier.contains(c));
        lemma_slot_bound(c, m.width, m.height);
        assert(m.cells[slot(c, m.width)] is None);
        assert(false);
    }
}

/// Once anything is colored, an empty frontier means a full canvas: the
/// engine cannot stall with uncolored cells left.
pub proof fn lemma_done_state_is_full(m: GrowModel)
    requires
        inv(m),
        count_colored(m.cells) >= 1,
        m.frontier.len() == 0,
    ensures
        count_colored(m.cells) == m.cells.len(),
        forall|i: int| 0 <= i < m.cells.len() ==> m.cells[i] is Some,
{
    lemma_count_colored_bounds(m.cells);
    if count_colored(m.cells) < m.cells.len() {
        lemma_frontier_nonempty(m);
    }
    lemma_count_colored_full(m.cells);
}

/// Termination with full coverage: once one cell is colored, a queue at
/// least as long as the number of uncolored cells drives the run to a fully
/// colored canvas and an empty frontier.
pub proof fn lemma_run_full_coverage(m: GrowModel, queue: Seq<Color>, qi: int, tb: TieBreaker)
    requires
        inv(m),
        0 <= qi <= queue.len(),
        count_colored(m.cells) >= 1,
        queue.len() - qi >= m.cells.len() - count_colored(m.cells),
    ensures
        ({
            let m2 = spec_run_from(m, queue, qi, tb).0;
            &&& count_colored(m2.cells) == m2.cells.len()
            &&& m2.frontier.len() == 0
            &&& forall|i: int| 0 <= i < m2.cells.len() ==> m2.cells[i] is Some
        }),
    decreases queue.len() - qi,
{
    lemma_count_colored_bounds(m.cells);
    lemma_count_colored_full(m.cells);
    if count_colored(m.cells) == m.cells.len() {
        // already full; the frontier must be empty, so the run is over
        if m.frontier.len() > 0 {
            let c = m.frontier[0];
            assert(m.frontier.contains(c));
            lemma_slot_bound(c, m.width, m.height);
            assert(m.cells[slot(c, m.width)] is None);
            assert(false);
        }
    } else {
        lemma_frontier_nonempty(m);
        lemma_step_preserves_inv(m, queue[qi], tb);
        let st = spec_step(m, queue[qi], tb);
        lemma_run_full_coverage(st.0, queue, qi + 1, st.1);
    }
}

/// Determinism: the model is a function, so two runs from identical states,
/// identical queues and identical tie-break sources end in identical states
/// — byte-identical canvases included. The engine's `run` pins its result to
/// `spec_run` whenever the tie-break source is deterministic, which carries
/// this equality to execution.
pub proof fn lemma_deterministic_runs(
    m1: GrowModel,
    m2: GrowModel,
    queue: Seq<Color>,
    tb1: TieBreaker,
    tb2: TieBreaker,
)
    requires
        m1 == m2,
        tb1 == tb2,
    ensures
        spec_run(m1, queue, tb1) == spec_run(m2, queue, tb2),
{
}

} // verus!
