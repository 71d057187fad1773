//! The canvas: a fixed-size grid of cells, each uncolored or colored exactly
//! once.

use vstd::prelude::*;
use crate::color::Color;
use crate::geom::{Coordinate, lemma_slot_bound, lemma_slot_injective, slot, spec_in_bounds};

verus! {

/// Why a canvas access or a placement was refused.
#[derive(Clone, Copy, PartialEq, Eq, Structural, Debug)]
pub enum PaintError {
    /// The coordinate lies outside the canvas.
    OutOfBounds,
    /// The cell already holds a color; cells are colored at most once.
    AlreadyColored,
}

/// A `width` by `height` grid of cells in row-major order. `None` is an
/// uncolored cell; `Some(c)` a cell that has been colored `c`.
pub struct Canvas {
    pub width: u32,
    pub height: u32,
    pub cells: Vec<Option<Color>>,
}

/// How many cells of `s` are colored.
pub open spec fn count_colored(s: Seq<Option<Color>>) -> int
    decreases s.len(),
{
    if s.len() == 0 {
        0
    } else {
        count_colored(s.drop_last()) + if s.last() is Some {
            1int
        } else {
            0int
        }
    }
}

pub proof fn lemma_count_colored_bounds(s: Seq<Option<Color>>)
    ensures
        0 <= count_colored(s) <= s.len(),
    decreases s.len(),
{
    if s.len() > 0 {
        lemma_count_colored_bounds(s.drop_last());
    }
}

/// Coloring one uncolored cell raises the colored count by exactly one.
pub proof fn lemma_count_colored_update(s: Seq<Option<Color>>, i: int, c: Color)
    requires
        0 <= i < s.len(),
        s[i] is None,
    ensures
        count_colored(s.update(i, Some(c))) == count_colored(s) + 1,
    decreases s.len(),
{
    let t = s.update(i, Some(c));
    if i == s.len() - 1 {
        assert(t.drop_last() =~= s.drop_last());
    } else {
        assert(t.drop_last() =~= s.drop_last().update(i, Some(c)));
        lemma_count_colored_update(s.drop_last(), i, c);
    }
}

pub proof fn lemma_count_colored_all_none(s: Seq<Option<Color>>)
    requires
        forall|i: int| 0 <= i < s.len() ==> s[i] is None,
    ensures
        count_colored(s) == 0,
    decreases s.len(),
{
    if s.len() > 0 {
        lemma_count_colored_all_none(s.drop_last());
    }
}

/// A positive colored count names a colored cell.
pub proof fn lemma_count_pos_exists(s: Seq<Option<Color>>)
    requires
        count_colored(s) > 0,
    ensures
        exists|i: int| 0 <= i < s.len() && s[i] is Some,
    decreases s.len(),
{
    if s.last() is Some {
        assert(s[s.len() - 1] is Some);
    } else {
        lemma_count_pos_exists(s.drop_last());
        let i = choose|i: int| 0 <= i < s.len() - 1 && s.drop_last()[i] is Some;
        assert(s[i] is Some);
    }
}

/// A colored count short of the length names an uncolored cell.
pub proof fn lemma_count_short_exists(s: Seq<Option<Color>>)
    requires
        count_colored(s) < s.len(),
    ensures
        exists|i: int| 0 <= i < s.len() && s[i] is None,
    decreases s.len(),
{
    lemma_count_colored_bounds(s);
    if s.last() is None {
        assert(s[s.len() - 1] is None);
    } else {
        lemma_count_short_exists(s.drop_last());
        let i = choose|i: int| 0 <= i < s.len() - 1 && s.drop_last()[i] is None;
        assert(s[i] is None);
    }
}

/// A fully colored sequence has colored count equal to its length, and
/// conversely.
pub proof fn lemma_count_colored_full(s: Seq<Option<Color>>)
    ensures
        count_colored(s) == s.len() <==> (forall|i: int| 0 <= i < s.len() ==> s[i] is Some),
    decreases s.len(),
{
    if s.len() > 0 {
        lemma_count_colored_full(s.drop_last());
        lemma_count_colored_bounds(s.drop_last());
        if count_colored(s) == s.len() {
            assert(forall|i: int| 0 <= i < s.len() - 1 ==> s[i] == s.drop_last()[i]);
        } else if forall|i: int| 0 <= i < s.len() ==> s[i] is Some {
            assert(forall|i: int| 0 <= i < s.len() - 1 ==> s.drop_last()[i] is Some);
        }
    }
}

impl Canvas {
    /// A well-formed canvas: positive dimensions, one cell per grid slot.
    pub open spec fn wf(&self) -> bool {
        &&& self.width >= 1
        &&& self.height >= 1
        &&& self.width * self.height <= usize::MAX
        &&& self.cells@.len() == self.width * self.height
    }

    pub open spec fn spec_in_bounds(&self, c: Coordinate) -> bool {
        spec_in_bounds(c, self.width, self.height)
    }

    /// The cell at an in-bounds coordinate.
    pub open spec fn cell(&self, c: Coordinate) -> Option<Color> {
        self.cells@[slot(c, self.width)]
    }

    pub open spec fn is_colored(&self, c: Coordinate) -> bool {
        self.cell(c) is Some
    }

    /// How many cells are colored so far.
    pub open spec fn colored_count(&self) -> int {
        count_colored(self.cells@)
    }

    /// Allocates a canvas with every cell uncolored.
    pub fn new(width: u32, height: u32) -> (canvas: Canvas)
        requires
            width >= 1,
            height >= 1,
            width * height <= usize::MAX,
        ensures
            canvas.wf(),
            canvas.width == width,
            canvas.height == height,
            forall|c: Coordinate| canvas.spec_in_bounds(c) ==> canvas.cell(c) is None,
            forall|i: int| 0 <= i < canvas.cells@.len() ==> canvas.cells@[i] is None,
            canvas.colored_count() == 0,
    {
        let total: usize = (width as usize) * (height as usize);
        let mut cells: Vec<Option<Color>> = Vec::new();
        let mut i: usize = 0;
        while i < total
            invariant
                i <= total,
                cells@.len() == i,
                forall|j: int| 0 <= j < i ==> cells@[j] is None,
            decreases total - i,
        {
            cells.push(None);
            i = i + 1;
        }
        proof {
            lemma_count_colored_all_none(cells@);
        }
        let canvas = Canvas { width, height, cells };
        proof {
            assert forall|c: Coordinate| canvas.spec_in_bounds(c) implies canvas.cell(c)
                is None by {
                lemma_slot_bound(c, width, height);
            }
        }
        canvas
    }

    pub fn in_bounds(&self, c: Coordinate) -> (r: bool)
        ensures
            r == self.spec_in_bounds(c),
    {
        c.x < self.width && c.y < self.height
    }

    /// Reads the cell at `c`, already knowing `c` to be in bounds.
    pub fn cell_at(&self, c: Coordinate) -> (r: Option<Color>)
        requires
            self.wf(),
            self.spec_in_bounds(c),
        ensures
            r == self.cell(c),
    {
        proof {
            lemma_slot_bound(c, self.width, self.height);
        }
        let idx: usize = (c.y as usize) * (self.width as usize) + (c.x as usize);
        self.cells[idx]
    }

    /// Reads the cell at `c`, refusing an out-of-bounds coordinate.
    pub fn get(&self, c: Coordinate) -> (r: Result<Option<Color>, PaintError>)
        requires
            self.wf(),
        ensures
            self.spec_in_bounds(c) ==> r == Ok::<Option<Color>, PaintError>(self.cell(c)),
            !self.spec_in_bounds(c) ==> r == Err::<Option<Color>, PaintError>(
                PaintError::OutOfBounds,
            ),
    {
        if self.in_bounds(c) {
            Ok(self.cell_at(c))
        } else {
            Err(PaintError::OutOfBounds)
        }
    }

    /// Colors the cell at `c`. The cell must still be uncolored: a cell
    /// transitions `Uncolored -> Colored` at most once.
    pub fn set(&mut self, c: Coordinate, color: Color)
        requires
            old(self).wf(),
            old(self).spec_in_bounds(c),
            old(self).cell(c) is None,
        ensures
            final (self).wf(),
            final (self).width == old(self).width,
            final (self).height == old(self).height,
            final (self).cells@ == old(self).cells@.update(slot(c, old(self).width), Some(color)),
            final (self).cell(c) == Some(color),
            forall|d: Coordinate|
                old(self).spec_in_bounds(d) && d != c ==> final (self).cell(d) == old(self).cell(
                    d,
                ),
            final (self).colored_count() == old(self).colored_count() + 1,
    {
        proof {
            lemma_slot_bound(c, self.width, self.height);
            lemma_count_colored_update(self.cells@, slot(c, self.width), color);
        }
        let idx: usize = (c.y as usize) * (self.width as usize) + (c.x as usize);
        self.cells.set(idx, Some(color));
        proof {
            assert forall|d: Coordinate| self.spec_in_bounds(d) && d != c implies self.cell(d)
                == old(self).cell(d) by {
                lemma_slot_bound(d, self.width, self.height);
                if slot(d, self.width) == slot(c, self.width) {
                    lemma_slot_injective(d, c, self.width, self.height);
                }
            }
        }
    }
}

} // verus!
