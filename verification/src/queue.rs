//! The color queue: an ordered, finite sequence of colors, consumed strictly
//! front to back. Exhaustion is a normal terminal condition, not an error.

use vstd::prelude::*;
use crate::color::Color;

verus! {

/// A read-once-through queue of colors: `colors` never changes, the cursor
/// `next` only advances.
pub struct ColorQueue {
    pub colors: Vec<Color>,
    pub next: usize,
}

impl ColorQueue {
    pub open spec fn wf(&self) -> bool {
        self.next <= self.colors@.len()
    }

    /// The colors still to be consumed, front first.
    pub open spec fn remaining(&self) -> Seq<Color> {
        self.colors@.skip(self.next as int)
    }

    pub fn new(colors: Vec<Color>) -> (q: ColorQueue)
        ensures
            q.wf(),
            q.remaining() == colors@,
            q.colors@ == colors@,
    {
        let q = ColorQueue { colors, next: 0 };
        proof {
            assert(q.remaining() =~= q.colors@);
        }
        q
    }

    pub fn remaining_len(&self) -> (n: usize)
        requires
            self.wf(),
        ensures
            n == self.remaining().len(),
    {
        self.colors.len() - self.next
    }

    pub fn is_exhausted(&self) -> (r: bool)
        requires
            self.wf(),
        ensures
            r == (self.remaining().len() == 0),
    {
        self.next == self.colors.len()
    }

    /// Takes the front color, advancing the cursor; `None` once exhausted.
    pub fn pop_front(&mut self) -> (r: Option<Color>)
        requires
            old(self).wf(),
        ensures
            final (self).wf(),
            final (self).colors@ == old(self).colors@,
            old(self).remaining().len() == 0 ==> r is None && *final (self) == *old(self),
            old(self).remaining().len() > 0 ==> r == Some(old(self).remaining()[0]) && final (self).remaining() == old(self).remaining().skip(1),
    {
        if self.next == self.colors.len() {
            None
        } else {
            let c = self.colors[self.next];
            self.next = self.next + 1;
            proof {
                assert(self.remaining() =~= old(self).remaining().skip(1));
            }
            Some(c)
        }
    }
}

} // verus!
