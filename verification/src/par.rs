//! The parallel scoring pass: scoring only reads the canvas, so it may run
//! as a data-parallel map over an immutable snapshot of the boundary region,
//! followed by the same sequential reduce-to-minimum with tie-break as the
//! sequential path. Mutation stays strictly serialized after scoring.

use vstd::prelude::*;
use rayon::iter::{IndexedParallelIterator, IntoParallelRefIterator, ParallelIterator};
use crate::canvas::Canvas;
use crate::color::Color;
use crate::engine::Engine;
use crate::geom::{Coordinate, slot, spec_in_bounds};
use crate::model::{lemma_frontier_member_has_neighbor, select_from, spec_select, spec_step};
use crate::score::{Score, lemma_score_le_trans, score_at, score_le};
use crate::tie::TieBreaker;

verus! {

/// Relies on rayon's indexed parallel map: `par_iter().map(..).collect()`
/// returns one result per input, in input order; each result comes from the
/// verified `evaluate_position`, whose contract gives its exact value.
#[verifier::external_body]
fn par_scores(canvas: &Canvas, list: &Vec<Coordinate>, color: Color) -> (r: Vec<Score>)
    requires
        canvas.wf(),
        forall|i: int|
            0 <= i < list@.len() ==> spec_in_bounds(#[trigger] list@[i], canvas.width, canvas.height),
    ensures
        r@.len() == list@.len(),
        forall|i: int|
            0 <= i < list@.len() ==> (#[trigger] r@[i])@ == score_at(
                canvas.cells@,
                canvas.width,
                canvas.height,
                list@[i],
                color,
            ),
{
    list.par_iter().map(|c| crate::score::evaluate_position(canvas, *c, color)).collect()
}

impl Engine {
    /// Scores every boundary candidate in parallel, then reduces
    /// sequentially to the best position, ties resolved through `tb` — the
    /// same selection as the sequential pass.
    fn select_best_parallel(&self, color: Color, tb: &mut TieBreaker) -> (best: usize)
        requires
            self.wf(),
            self.model().frontier.len() > 0,
        ensures
            best < self.model().frontier.len(),
            forall|j: int|
                0 <= j < self.model().frontier.len() ==> score_le(
                    score_at(
                        self.model().cells,
                        self.model().width,
                        self.model().height,
                        self.model().frontier[best as int],
                        color,
                    ),
                    score_at(
                        self.model().cells,
                        self.model().width,
                        self.model().height,
                        #[trigger] self.model().frontier[j],
                        color,
                    ),
                ),
            old(tb).is_deterministic() ==> (best as int, *final (tb)) == spec_select(
                self.model(),
                color,
                *old(tb),
            ),
            !old(tb).is_deterministic() ==> *final (tb) == *old(tb),
            final (tb).is_deterministic() == old(tb).is_deterministic(),
    {
        let ghost m = self.model();
        let ghost tb0 = *tb;
        proof {
            assert forall|j: int|
                0 <= j < m.frontier.len() implies score_at(
                m.cells,
                m.width,
                m.height,
                #[trigger] m.frontier[j],
                color,
            ).1 >= 1 by {
                lemma_frontier_member_has_neighbor(m, j, color);
            }
        }
        let scores = par_scores(&self.canvas, &self.boundary.list, color);
        let len = self.boundary.len();
        let mut best: usize = 0;
        let mut best_score: Score = scores[0];
        let mut k: usize = 1;
        while k < len
            invariant
                self.wf(),
                m == self.model(),
                len == m.frontier.len(),
                scores@.len() == len,
                forall|i: int|
                    0 <= i < len ==> (#[trigger] scores@[i])@ == score_at(
                        m.cells,
                        m.width,
                        m.height,
                        m.frontier[i],
                        color,
                    ),
                1 <= k <= len,
                best < k,
                forall|j: int|
                    0 <= j < m.frontier.len() ==> score_at(
                        m.cells,
                        m.width,
                        m.height,
                        #[trigger] m.frontier[j],
                        color,
                    ).1 >= 1,
                best_score@ == score_at(m.cells, m.width, m.height, m.frontier[best as int], color),
                forall|j: int|
                    0 <= j < k ==> score_le(
                        score_at(m.cells, m.width, m.height, m.frontier[best as int], color),
                        score_at(m.cells, m.width, m.height, #[trigger] m.frontier[j], color),
                    ),
                tb0.is_deterministic() ==> select_from(m, color, k as int, best as int, *tb)
                    == spec_select(m, color, tb0),
                !tb0.is_deterministic() ==> *tb == tb0,
                tb.is_deterministic() == tb0.is_deterministic(),
            decreases len - k,
        {
            let sk = scores[k];
            let ghost old_best = best as int;
            let ghost old_tb = *tb;
            if sk.less_than(&best_score) {
                proof {
                    assert forall|j: int|
                        0 <= j < k + 1 implies score_le(
                        score_at(m.cells, m.width, m.height, m.frontier[k as int], color),
                        score_at(m.cells, m.width, m.height, #[trigger] m.frontier[j], color),
                    ) by {
                        if j < k {
                            lemma_score_le_trans(
                                score_at(m.cells, m.width, m.height, m.frontier[k as int], color),
                                score_at(m.cells, m.width, m.height, m.frontier[old_best], color),
                                score_at(m.cells, m.width, m.height, m.frontier[j], color),
                            );
                        }
                    }
                }
                best = k;
                best_score = sk;
            } else if sk.equal_to(&best_score) {
                let keep = tb.flip();
                if !keep {
                    proof {
                        assert forall|j: int|
                            0 <= j < k + 1 implies score_le(
                            score_at(m.cells, m.width, m.height, m.frontier[k as int], color),
                            score_at(m.cells, m.width, m.height, #[trigger] m.frontier[j], color),
                        ) by {
                            if j < k {
                                lemma_score_le_trans(
                                    score_at(
                                        m.cells,
                                        m.width,
                                        m.height,
                                        m.frontier[k as int],
                                        color,
                                    ),
                                    score_at(
                                        m.cells,
                                        m.width,
                                        m.height,
                                        m.frontier[old_best],
                                        color,
                                    ),
                                    score_at(m.cells, m.width, m.height, m.frontier[j], color),
                                );
                            }
                        }
                    }
                    best = k;
                    best_score = sk;
                }
            }
            proof {
                if tb0.is_deterministic() {
                    assert(select_from(m, color, k as int, old_best, old_tb) == select_from(
                        m,
                        color,
                        k + 1,
                        best as int,
                        *tb,
                    ));
                }
            }
            k = k + 1;
        }
        best
    }

    /// `place_next` with the scoring pass run in parallel: the same
    /// contract, the same selection, the same committed state.
    pub fn place_next_parallel(&mut self, color: Color, tb: &mut TieBreaker) -> (r: Option<
        Coordinate,
    >)
        requires
            old(self).wf(),
        ensures
            final (self).wf(),
            old(self).model().frontier.len() == 0 ==> r is None && *final (self) == *old(self)
                && *final (tb) == *old(tb),
            old(self).model().frontier.len() > 0 ==> {
                &&& r is Some
                &&& old(self).model().frontier.contains(r->Some_0)
                &&& old(self).model().cells[slot(r->Some_0, old(self).model().width)] is None
                &&& final (self).placed == old(self).placed + 1
                &&& final (self).model().width == old(self).model().width
                &&& final (self).model().height == old(self).model().height
                &&& final (self).model().cells[slot(r->Some_0, old(self).model().width)] == Some(
                    color,
                )
                &&& forall|d: Coordinate|
                    spec_in_bounds(d, old(self).model().width, old(self).model().height) && d
                        != r->Some_0 ==> final (self).model().cells[slot(
                        d,
                        old(self).model().width,
                    )] == old(self).model().cells[slot(d, old(self).model().width)]
                &&& forall|j: int|
                    0 <= j < old(self).model().frontier.len() ==> score_le(
                        score_at(
                            old(self).model().cells,
                            old(self).model().width,
                            old(self).model().height,
                            r->Some_0,
                            color,
                        ),
                        score_at(
                            old(self).model().cells,
                            old(self).model().width,
                            old(self).model().height,
                            #[trigger] old(self).model().frontier[j],
                            color,
                        ),
                    )
                &&& old(tb).is_deterministic() ==> (final (self).model(), *final (tb)) == spec_step(
                    old(self).model(),
                    color,
                    *old(tb),
                ) && r == Some(
                    old(self).model().frontier[spec_select(old(self).model(), color, *old(tb)).0],
                )
                &&& final (tb).is_deterministic() == old(tb).is_deterministic()
            },
    {
        if self.boundary.is_empty() {
            return None;
        }
        let ghost m = self.model();
        let ghost tb0 = *tb;
        let best = self.select_best_parallel(color, tb);
        let c = self.commit(best, color);
        proof {
            if tb0.is_deterministic() {
                assert((best as int, *tb) == spec_select(m, color, tb0));
                assert(self.model() == spec_step(m, color, tb0).0);
            }
        }
        Some(c)
    }
}

} // verus!
