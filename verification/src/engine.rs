//! The placement engine: pops colors, scores the boundary region, commits
//! the best placement, and maintains the frontier — with every step pinned
//! to the model in `model`.

use vstd::prelude::*;
use crate::boundary::BoundaryRegion;
use crate::canvas::{Canvas, PaintError, count_colored, lemma_count_colored_bounds};
use crate::color::Color;
use crate::geom::{Coordinate, slot, spec_in_bounds};
use crate::model::{
    GrowModel, insert_neighbors_from, inv, lemma_frontier_member_has_neighbor,
    lemma_place_preserves_inv, lemma_seed_preserves_inv, select_from, spec_place, spec_run_from,
    spec_seed, spec_select, spec_step,
};
use crate::queue::ColorQueue;
use crate::score::{Score, evaluate_position, lemma_score_le_trans, score_at, score_le};
use crate::tie::TieBreaker;

verus! {

/// The engine's state: the canvas being grown, the boundary region of
/// placeable cells, and how many pixels have been placed.
pub struct Engine {
    pub canvas: Canvas,
    pub boundary: BoundaryRegion,
    pub placed: u64,
}

impl Engine {
    /// This state as mathematics.
    pub open spec fn model(&self) -> GrowModel {
        GrowModel {
            width: self.canvas.width,
            height: self.canvas.height,
            cells: self.canvas.cells@,
            frontier: self.boundary@,
        }
    }

    /// Well-formed: both structures sound, dimensions agreeing, the placed
    /// counter equal to the number of colored cells, and the boundary region
    /// holding exactly the uncolored cells with a colored neighbor.
    pub open spec fn wf(&self) -> bool {
        &&& self.canvas.wf()
        &&& self.boundary.wf()
        &&& self.boundary.width == self.canvas.width
        &&& self.boundary.height == self.canvas.height
        &&& self.placed == count_colored(self.canvas.cells@)
        &&& inv(self.model())
    }

    /// A fresh engine: every cell uncolored, the boundary region empty.
    pub fn new(width: u32, height: u32) -> (engine: Engine)
        requires
            width >= 1,
            height >= 1,
            width * height <= usize::MAX,
        ensures
            engine.wf(),
            engine.model().width == width,
            engine.model().height == height,
            engine.model().frontier == Seq::<Coordinate>::empty(),
            forall|i: int| 0 <= i < engine.model().cells.len() ==> engine.model().cells[i] is None,
            engine.placed == 0,
    {
        let canvas = Canvas::new(width, height);
        let boundary = BoundaryRegion::new(width, height);
        let engine = Engine { canvas, boundary, placed: 0 };
        proof {
            assert forall|c: Coordinate|
                spec_in_bounds(c, width, height) implies !crate::score::has_colored_neighbor(
                engine.model().cells,
                width,
                height,
                c,
            ) by {
                if crate::score::has_colored_neighbor(engine.model().cells, width, height, c) {
                    let n = choose|n: Coordinate|
                        spec_in_bounds(n, width, height) && crate::geom::is_neighbor(c, n)
                            && engine.model().cells[slot(n, width)] is Some;
                    crate::geom::lemma_slot_bound(n, width, height);
                    assert(engine.canvas.cells@[slot(n, width)] is None);
                }
            }
        }
        engine
    }

    pub fn width(&self) -> (w: u32)
        ensures
            w == self.model().width,
    {
        self.canvas.width
    }

    pub fn height(&self) -> (h: u32)
        ensures
            h == self.model().height,
    {
        self.canvas.height
    }

    /// How many pixels have been placed (seeds included).
    pub fn pixels_placed(&self) -> (n: u64)
        ensures
            n == self.placed,
    {
        self.placed
    }

    /// How many cells stand in the boundary region.
    pub fn boundary_len(&self) -> (n: usize)
        ensures
            n == self.model().frontier.len(),
    {
        self.boundary.len()
    }

    /// Whether `c` currently stands in the boundary region.
    pub fn boundary_contains(&self, c: Coordinate) -> (r: bool)
        requires
            self.wf(),
        ensures
            r == self.model().frontier.contains(c),
    {
        self.boundary.contains(c)
    }

    /// Reads the cell at `c`, refusing an out-of-bounds coordinate.
    pub fn cell(&self, c: Coordinate) -> (r: Result<Option<Color>, PaintError>)
        requires
            self.wf(),
        ensures
            spec_in_bounds(c, self.model().width, self.model().height) ==> r == Ok::<
                Option<Color>,
                PaintError,
            >(self.model().cells[slot(c, self.model().width)]),
            !spec_in_bounds(c, self.model().width, self.model().height) ==> r == Err::<
                Option<Color>,
                PaintError,
            >(PaintError::OutOfBounds),
    {
        self.canvas.get(c)
    }

    /// Folds the in-bounds, still-uncolored neighbors of `c` into the
    /// boundary region, in offset-table order.
    fn extend_frontier(&mut self, c: Coordinate)
        requires
            old(self).canvas.wf(),
            old(self).boundary.wf(),
            old(self).boundary.width == old(self).canvas.width,
            old(self).boundary.height == old(self).canvas.height,
            spec_in_bounds(c, old(self).canvas.width, old(self).canvas.height),
        ensures
            final (self).canvas == old(self).canvas,
            final (self).placed == old(self).placed,
            final (self).boundary.wf(),
            final (self).boundary.width == old(self).boundary.width,
            final (self).boundary.height == old(self).boundary.height,
            final (self).boundary@ == insert_neighbors_from(
                old(self).canvas.cells@,
                old(self).canvas.width,
                old(self).canvas.height,
                old(self).boundary@,
                c,
                0,
            ),
    {
        let ghost cells = self.canvas.cells@;
        let ghost w = self.canvas.width;
        let ghost h = self.canvas.height;
        let ghost f0 = self.boundary@;
        let mut k: usize = 0;
        while k < 8
            invariant
                k <= 8,
                self.canvas == old(self).canvas,
                self.canvas.wf(),
                self.placed == old(self).placed,
                self.boundary.wf(),
                self.boundary.width == w,
                self.boundary.height == h,
                cells == self.canvas.cells@,
                w == self.canvas.width,
                h == self.canvas.height,
                f0 == old(self).boundary@,
                spec_in_bounds(c, w, h),
                insert_neighbors_from(cells, w, h, self.boundary@, c, k as int)
                    == insert_neighbors_from(cells, w, h, f0, c, 0),
            decreases 8 - k,
        {
            let ghost before = self.boundary@;
            match c.neighbor(k, self.canvas.width, self.canvas.height) {
                Some(n) => {
                    match self.canvas.cell_at(n) {
                        Some(_) => {},
                        None => {
                            self.boundary.insert_if_absent(n);
                        },
                    }
                },
                None => {},
            }
            proof {
                assert(insert_neighbors_from(cells, w, h, before, c, k as int)
                    == insert_neighbors_from(cells, w, h, self.boundary@, c, k + 1));
            }
            k = k + 1;
        }
    }

    /// Seeds `color` at `c`, bypassing the frontier search: refused outside
    /// the canvas or on an already-colored cell, otherwise committed with the
    /// same frontier update as an ordinary placement.
    pub fn place_seed(&mut self, c: Coordinate, color: Color) -> (r: Result<(), PaintError>)
        requires
            old(self).wf(),
        ensures
            final (self).wf(),
            !spec_in_bounds(c, old(self).model().width, old(self).model().height) ==> r == Err::<
                (),
                PaintError,
            >(PaintError::OutOfBounds) && *final (self) == *old(self),
            spec_in_bounds(c, old(self).model().width, old(self).model().height) && old(
                self,
            ).model().cells[slot(c, old(self).model().width)] is Some ==> r == Err::<
                (),
                PaintError,
            >(PaintError::AlreadyColored) && *final (self) == *old(self),
            spec_in_bounds(c, old(self).model().width, old(self).model().height) && old(
                self,
            ).model().cells[slot(c, old(self).model().width)] is None ==> {
                &&& r == Ok::<(), PaintError>(())
                &&& final (self).model() == spec_seed(old(self).model(), c, color)
                &&& final (self).placed == old(self).placed + 1
                &&& final (self).model().cells[slot(c, old(self).model().width)] == Some(color)
                &&& forall|d: Coordinate|
                    spec_in_bounds(d, old(self).model().width, old(self).model().height) && d != c
                        ==> final (self).model().cells[slot(d, old(self).model().width)] == old(
                        self,
                    ).model().cells[slot(d, old(self).model().width)]
            },
    {
        if !self.canvas.in_bounds(c) {
            return Err(PaintError::OutOfBounds);
        }
        match self.canvas.cell_at(c) {
            Some(_) => {
                return Err(PaintError::AlreadyColored);
            },
            None => {},
        }
        let ghost m = self.model();
        if self.boundary.contains(c) {
            self.boundary.remove_match(c);
        }
        self.canvas.set(c, color);
        proof {
            lemma_count_colored_bounds(self.canvas.cells@);
        }
        self.placed = self.placed + 1;
        self.extend_frontier(c);
        proof {
            lemma_seed_preserves_inv(m, c, color);
            assert(self.model() == spec_seed(m, c, color));
        }
        Ok(())
    }

    /// Scores every boundary candidate for `color` and returns the position
    /// of the best one, ties resolved through `tb`, one draw per exact tie.
    fn select_best(&self, color: Color, tb: &mut TieBreaker) -> (best: usize)
        requires
            self.wf(),
            self.model().frontier.len() > 0,
        ensures
            best < self.model().frontier.len(),
            forall|j: int|
                0 <= j < self.model().frontier.len() ==> score_le(
                    score_at(
                        self.model().cells,
                        self.model().width,
                        self.model().height,
                        self.model().frontier[best as int],
                        color,
                    ),
                    score_at(
                        self.model().cells,
                        self.model().width,
                        self.model().height,
                        #[trigger] self.model().frontier[j],
                        color,
                    ),
                ),
            old(tb).is_deterministic() ==> (best as int, *final (tb)) == spec_select(
                self.model(),
                color,
                *old(tb),
            ),
            !old(tb).is_deterministic() ==> *final (tb) == *old(tb),
            final (tb).is_deterministic() == old(tb).is_deterministic(),
    {
        let ghost m = self.model();
        let ghost tb0 = *tb;
        proof {
            assert forall|j: int|
                0 <= j < m.frontier.len() implies score_at(
                m.cells,
                m.width,
                m.height,
                #[trigger] m.frontier[j],
                color,
            ).1 >= 1 by {
                lemma_frontier_member_has_neighbor(m, j, color);
            }
        }
        let len = self.boundary.len();
        let c0 = self.boundary.member_at(0);
        let mut best: usize = 0;
        let mut best_score: Score = evaluate_position(&self.canvas, c0, color);
        let mut k: usize = 1;
        while k < len
            invariant
                self.wf(),
                m == self.model(),
                len == m.frontier.len(),
                1 <= k <= len,
                best < k,
                forall|j: int|
                    0 <= j < m.frontier.len() ==> score_at(
                        m.cells,
                        m.width,
                        m.height,
                        #[trigger] m.frontier[j],
                        color,
                    ).1 >= 1,
                best_score@ == score_at(m.cells, m.width, m.height, m.frontier[best as int], color),
                forall|j: int|
                    0 <= j < k ==> score_le(
                        score_at(m.cells, m.width, m.height, m.frontier[best as int], color),
                        score_at(m.cells, m.width, m.height, #[trigger] m.frontier[j], color),
                    ),
                tb0.is_deterministic() ==> select_from(m, color, k as int, best as int, *tb)
                    == spec_select(m, color, tb0),
                !tb0.is_deterministic() ==> *tb == tb0,
                tb.is_deterministic() == tb0.is_deterministic(),
            decreases len - k,
        {
            let ck = self.boundary.member_at(k);
            let sk = evaluate_position(&self.canvas, ck, color);
            let ghost old_best = best as int;
            let ghost old_tb = *tb;
            if sk.less_than(&best_score) {
                proof {
                    assert forall|j: int|
                        0 <= j < k + 1 implies score_le(
                        score_at(m.cells, m.width, m.height, m.frontier[k as int], color),
                        score_at(m.cells, m.width, m.height, #[trigger] m.frontier[j], color),
                    ) by {
                        if j < k {
                            lemma_score_le_trans(
                                score_at(m.cells, m.width, m.height, m.frontier[k as int], color),
                                score_at(m.cells, m.width, m.height, m.frontier[old_best], color),
                                score_at(m.cells, m.width, m.height, m.frontier[j], color),
                            );
                        }
                    }
                }
                best = k;
                best_score = sk;
            } else if sk.equal_to(&best_score) {
                let keep = tb.flip();
                if !keep {
                    proof {
                        assert forall|j: int|
                            0 <= j < k + 1 implies score_le(
                            score_at(m.cells, m.width, m.height, m.frontier[k as int], color),
                            score_at(m.cells, m.width, m.height, #[trigger] m.frontier[j], color),
                        ) by {
                            if j < k {
                                lemma_score_le_trans(
                                    score_at(
                                        m.cells,
                                        m.width,
                                        m.height,
                                        m.frontier[k as int],
                                        color,
                                    ),
                                    score_at(
                                        m.cells,
                                        m.width,
                                        m.height,
                                        m.frontier[old_best],
                                        color,
                                    ),
                                    score_at(m.cells, m.width, m.height, m.frontier[j], color),
                                );
                            }
                        }
                    }
                    best = k;
                    best_score = sk;
                }
            }
            proof {
                if tb0.is_deterministic() {
                    assert(select_from(m, color, k as int, old_best, old_tb) == select_from(
                        m,
                        color,
                        k + 1,
                        best as int,
                        *tb,
                    ));
                }
            }
            k = k + 1;
        }
        best
    }

    /// Commits `color` at boundary position `i`: colors the cell, removes the
    /// position, and folds the new cell's uncolored neighbors into the
    /// boundary region.
    pub(crate) fn commit(&mut self, i: usize, color: Color) -> (c: Coordinate)
        requires
            old(self).wf(),
            i < old(self).model().frontier.len(),
        ensures
            final (self).wf(),
            c == old(self).model().frontier[i as int],
            final (self).model() == spec_place(old(self).model(), i as int, color),
            final (self).placed == old(self).placed + 1,
            final (self).model().width == old(self).model().width,
            final (self).model().height == old(self).model().height,
            final (self).model().cells[slot(c, old(self).model().width)] == Some(color),
            forall|d: Coordinate|
                spec_in_bounds(d, old(self).model().width, old(self).model().height) && d != c
                    ==> final (self).model().cells[slot(d, old(self).model().width)] == old(
                    self,
                ).model().cells[slot(d, old(self).model().width)],
    {
        let ghost m = self.model();
        proof {
            lemma_place_preserves_inv(m, i as int, color);
        }
        let c = self.boundary.remove_at(i);
        proof {
            assert(m.frontier.contains(c));
        }
        self.canvas.set(c, color);
        proof {
            lemma_count_colored_bounds(self.canvas.cells@);
        }
        self.placed = self.placed + 1;
        self.extend_frontier(c);
        c
    }

    /// One growing step: scores the boundary region for `color`, commits it
    /// at a minimum-score position (exact ties resolved through `tb`), and
    /// returns the chosen coordinate — or `None` once the boundary region is
    /// empty.
    pub fn place_next(&mut self, color: Color, tb: &mut TieBreaker) -> (r: Option<Coordinate>)
        requires
            old(self).wf(),
        ensures
            final (self).wf(),
            old(self).model().frontier.len() == 0 ==> r is None && *final (self) == *old(self)
                && *final (tb) == *old(tb),
            old(self).model().frontier.len() > 0 ==> {
                &&& r is Some
                &&& old(self).model().frontier.contains(r->Some_0)
                &&& old(self).model().cells[slot(r->Some_0, old(self).model().width)] is None
                &&& final (self).placed == old(self).placed + 1
                &&& final (self).model().width == old(self).model().width
                &&& final (self).model().height == old(self).model().height
                &&& final (self).model().cells[slot(r->Some_0, old(self).model().width)] == Some(
                    color,
                )
                &&& forall|d: Coordinate|
                    spec_in_bounds(d, old(self).model().width, old(self).model().height) && d
                        != r->Some_0 ==> final (self).model().cells[slot(
                        d,
                        old(self).model().width,
                    )] == old(self).model().cells[slot(d, old(self).model().width)]
                &&& forall|j: int|
                    0 <= j < old(self).model().frontier.len() ==> score_le(
                        score_at(
                            old(self).model().cells,
                            old(self).model().width,
                            old(self).model().height,
                            r->Some_0,
                            color,
                        ),
                        score_at(
                            old(self).model().cells,
                            old(self).model().width,
                            old(self).model().height,
                            #[trigger] old(self).model().frontier[j],
                            color,
                        ),
                    )
                &&& old(tb).is_deterministic() ==> (final (self).model(), *final (tb)) == spec_step(
                    old(self).model(),
                    color,
                    *old(tb),
                ) && r == Some(
                    old(self).model().frontier[spec_select(old(self).model(), color, *old(tb)).0],
                )
                &&& final (tb).is_deterministic() == old(tb).is_deterministic()
            },
    {
        if self.boundary.is_empty() {
            return None;
        }
        let ghost m = self.model();
        let ghost tb0 = *tb;
        let best = self.select_best(color, tb);
        let c = self.commit(best, color);
        proof {
            if tb0.is_deterministic() {
                assert((best as int, *tb) == spec_select(m, color, tb0));
                assert(self.model() == spec_step(m, color, tb0).0);
            }
        }
        Some(c)
    }

    /// Runs the growing loop: pops colors front-to-back and places each,
    /// until the boundary region or the queue is exhausted. Returns how many
    /// placements were made.
    pub fn run(&mut self, queue: &mut ColorQueue, tb: &mut TieBreaker) -> (n: usize)
        requires
            old(self).wf(),
            old(queue).wf(),
        ensures
            final (self).wf(),
            final (queue).wf(),
            final (queue).colors@ == old(queue).colors@,
            n <= old(queue).remaining().len(),
            final (queue).remaining() == old(queue).remaining().skip(n as int),
            final (self).placed == old(self).placed + n,
            final (self).model().width == old(self).model().width,
            final (self).model().height == old(self).model().height,
            // terminal: the boundary region or the queue is exhausted
            final (self).model().frontier.len() == 0 || final (queue).remaining().len() == 0,
            // colored cells only grow, never change
            forall|d: Coordinate|
                spec_in_bounds(d, old(self).model().width, old(self).model().height) && old(
                    self,
                ).model().cells[slot(d, old(self).model().width)] is Some ==> final (self).model().cells[slot(d, old(self).model().width)] == old(self).model().cells[slot(
                d,
                old(self).model().width,
            )],
            old(tb).is_deterministic() ==> (final (self).model(), *final (tb)) == spec_run_from(
                old(self).model(),
                old(queue).remaining(),
                0,
                *old(tb),
            ),
            final (tb).is_deterministic() == old(tb).is_deterministic(),
            // termination with full coverage: a queue at least as long as
            // the uncolored remainder of a seeded canvas colors every cell
            old(self).placed >= 1 && old(queue).remaining().len() + old(self).placed >= old(
                self,
            ).model().cells.len() ==> {
                &&& final (self).placed == final (self).model().cells.len()
                &&& final (self).model().frontier.len() == 0
                &&& forall|i: int|
                    0 <= i < final (self).model().cells.len() ==> final (self).model().cells[i]
                        is Some
            },
    {
        let ghost m0 = self.model();
        let ghost q0 = queue.remaining();
        let ghost tb0 = *tb;
        // establishes that the queue length fits a usize for the counter
        let _queue_len = queue.remaining_len();
        let mut n: usize = 0;
        loop
            invariant
                self.wf(),
                queue.wf(),
                queue.colors@ == old(queue).colors@,
                q0.len() <= usize::MAX,
                n <= q0.len(),
                queue.remaining() == q0.skip(n as int),
                self.placed == old(self).placed + n,
                self.model().width == m0.width,
                self.model().height == m0.height,
                forall|d: Coordinate|
                    spec_in_bounds(d, m0.width, m0.height) && m0.cells[slot(d, m0.width)] is Some
                        ==> self.model().cells[slot(d, m0.width)] == m0.cells[slot(d, m0.width)],
                tb0.is_deterministic() ==> spec_run_from(self.model(), q0, n as int, *tb)
                    == spec_run_from(m0, q0, 0, tb0),
                tb.is_deterministic() == tb0.is_deterministic(),
            ensures
                self.wf(),
                queue.wf(),
                queue.colors@ == old(queue).colors@,
                n <= q0.len(),
                queue.remaining() == q0.skip(n as int),
                self.placed == old(self).placed + n,
                self.model().width == m0.width,
                self.model().height == m0.height,
                self.model().frontier.len() == 0 || queue.remaining().len() == 0,
                forall|d: Coordinate|
                    spec_in_bounds(d, m0.width, m0.height) && m0.cells[slot(d, m0.width)] is Some
                        ==> self.model().cells[slot(d, m0.width)] == m0.cells[slot(d, m0.width)],
                tb0.is_deterministic() ==> (self.model(), *tb) == spec_run_from(m0, q0, 0, tb0),
                tb.is_deterministic() == tb0.is_deterministic(),
            decreases q0.len() - n,
        {
            if self.boundary.is_empty() {
                break ;
            }
            let ghost m_cur = self.model();
            let ghost tb_cur = *tb;
            match queue.pop_front() {
                None => {
                    break ;
                },
                Some(color) => {
                    proof {
                        assert(q0.skip(n as int)[0] == q0[n as int]);
                    }
                    let placed = self.place_next(color, tb);
                    proof {
                        assert(queue.remaining() =~= q0.skip(n + 1));
                        let c = placed->Some_0;
                        assert forall|d: Coordinate|
                            spec_in_bounds(d, m0.width, m0.height) && m0.cells[slot(d, m0.width)]
                                is Some implies self.model().cells[slot(d, m0.width)]
                            == m0.cells[slot(d, m0.width)] by {
                            assert(m_cur.cells[slot(d, m0.width)] == m0.cells[slot(d, m0.width)]);
                            if d == c {
                                assert(m_cur.cells[slot(c, m_cur.width)] is None);
                            }
                        }
                        if tb0.is_deterministic() {
                            assert((self.model(), *tb) == spec_step(m_cur, q0[n as int], tb_cur));
                            assert(spec_run_from(m_cur, q0, n as int, tb_cur) == spec_run_from(
                                self.model(),
                                q0,
                                n + 1,
                                *tb,
                            ));
                        }
                    }
                    n = n + 1;
                },
            }
        }
        proof {
            if old(self).placed >= 1 && q0.len() + old(self).placed >= m0.cells.len() {
                if self.model().frontier.len() == 0 {
                    crate::model::lemma_done_state_is_full(self.model());
                } else {
                    // the queue ran dry: every color found a cell, so the
                    // canvas is full — but then the frontier would be empty
                    assert(n == q0.len());
                    crate::canvas::lemma_count_colored_bounds(self.model().cells);
                    crate::model::lemma_full_canvas_has_empty_frontier(self.model());
                    assert(false);
                }
            }
        }
        n
    }
}

} // verus!
