//! The boundary region: the set of placeable frontier coordinates, kept as a
//! dense list with a reverse index so that insertion and removal are O(1).

use vstd::prelude::*;
use crate::geom::{Coordinate, lemma_slot_bound, lemma_slot_injective, slot, spec_in_bounds};

verus! {

/// The frontier set. `list` holds the members densely (order carries no
/// meaning for membership, but is tracked exactly so that runs are
/// reproducible); `index` maps a member's grid slot back to its position in
/// `list`. Entries of `index` at non-member slots are stale and never read.
pub struct BoundaryRegion {
    pub width: u32,
    pub height: u32,
    pub list: Vec<Coordinate>,
    pub index: Vec<usize>,
}

impl BoundaryRegion {
    /// Well-formed: one reverse-index entry per grid slot, and every list
    /// member is in bounds with its reverse-index entry pointing back at it.
    pub open spec fn wf(&self) -> bool {
        &&& self.width >= 1
        &&& self.height >= 1
        &&& self.width * self.height <= usize::MAX
        &&& self.index@.len() == self.width * self.height
        &&& forall|i: int|
            0 <= i < self.list@.len() ==> spec_in_bounds(#[trigger] self.list@[i], self.width, self.height)
                && self.index@[slot(self.list@[i], self.width)] == i
    }

    /// The members, in their current dense order.
    pub open spec fn view(&self) -> Seq<Coordinate> {
        self.list@
    }

    pub open spec fn spec_contains(&self, c: Coordinate) -> bool {
        self.list@.contains(c)
    }

    /// A well-formed region holds no coordinate twice.
    pub proof fn lemma_unique(&self)
        requires
            self.wf(),
        ensures
            forall|i: int, j: int|
                0 <= i < self.list@.len() && 0 <= j < self.list@.len() && self.list@[i]
                    == self.list@[j] ==> i == j,
    {
    }

    /// An empty region over a `width` by `height` canvas.
    pub fn new(width: u32, height: u32) -> (region: BoundaryRegion)
        requires
            width >= 1,
            height >= 1,
            width * height <= usize::MAX,
        ensures
            region.wf(),
            region.width == width,
            region.height == height,
            region@ == Seq::<Coordinate>::empty(),
    {
        let total: usize = (width as usize) * (height as usize);
        let mut index: Vec<usize> = Vec::new();
        let mut i: usize = 0;
        while i < total
            invariant
                i <= total,
                index@.len() == i,
            decreases total - i,
        {
            index.push(0);
            i = i + 1;
        }
        let region = BoundaryRegion { width, height, list: Vec::new(), index };
        assert(region@ =~= Seq::<Coordinate>::empty());
        region
    }

    pub fn len(&self) -> (n: usize)
        ensures
            n == self@.len(),
    {
        self.list.len()
    }

    pub fn is_empty(&self) -> (r: bool)
        ensures
            r == (self@.len() == 0),
    {
        self.list.len() == 0
    }

    /// The member at dense position `i`.
    pub fn member_at(&self, i: usize) -> (c: Coordinate)
        requires
            i < self@.len(),
        ensures
            c == self@[i as int],
    {
        self.list[i]
    }

    /// Membership test through the reverse index: O(1).
    pub fn contains(&self, c: Coordinate) -> (r: bool)
        requires
            self.wf(),
        ensures
            r == self.spec_contains(c),
    {
        if !(c.x < self.width && c.y < self.height) {
            proof {
                if self.list@.contains(c) {
                    let j = choose|j: int| 0 <= j < self.list@.len() && self.list@[j] == c;
                    assert(spec_in_bounds(self.list@[j], self.width, self.height));
                }
            }
            return false;
        }
        proof {
            lemma_slot_bound(c, self.width, self.height);
        }
        let s: usize = (c.y as usize) * (self.width as usize) + (c.x as usize);
        let i = self.index[s];
        if i < self.list.len() {
            let d = self.list[i];
            let r = d.x == c.x && d.y == c.y;
            proof {
                if r {
                    assert(self.list@[i as int] == c);
                }
                if self.list@.contains(c) {
                    let j = choose|j: int| 0 <= j < self.list@.len() && self.list@[j] == c;
                    assert(self.index@[slot(c, self.width)] == j);
                }
            }
            r
        } else {
            proof {
                if self.list@.contains(c) {
                    let j = choose|j: int| 0 <= j < self.list@.len() && self.list@[j] == c;
                    assert(self.index@[slot(c, self.width)] == j);
                }
            }
            false
        }
    }

    /// The dense position of a member.
    pub fn position_of(&self, c: Coordinate) -> (i: usize)
        requires
            self.wf(),
            self.spec_contains(c),
        ensures
            i < self@.len(),
            self@[i as int] == c,
    {
        proof {
            let j = choose|j: int| 0 <= j < self.list@.len() && self.list@[j] == c;
            assert(spec_in_bounds(c, self.width, self.height));
            lemma_slot_bound(c, self.width, self.height);
            assert(self.index@[slot(c, self.width)] == j);
        }
        let s: usize = (c.y as usize) * (self.width as usize) + (c.x as usize);
        self.index[s]
    }

    /// Inserts `c` unless it is already a member; never duplicates.
    pub fn insert_if_absent(&mut self, c: Coordinate)
        requires
            old(self).wf(),
            spec_in_bounds(c, old(self).width, old(self).height),
        ensures
            final (self).wf(),
            final (self).width == old(self).width,
            final (self).height == old(self).height,
            final (self)@ == if old(self).spec_contains(c) {
                old(self)@
            } else {
                old(self)@.push(c)
            },
            forall|x: Coordinate|
                final (self).spec_contains(x) == (old(self).spec_contains(x) || x == c),
    {
        if self.contains(c) {
            proof {
                assert forall|x: Coordinate|
                    self.spec_contains(x) == (old(self).spec_contains(x) || x == c) by {}
            }
            return ;
        }
        proof {
            lemma_slot_bound(c, self.width, self.height);
        }
        let s: usize = (c.y as usize) * (self.width as usize) + (c.x as usize);
        let pos = self.list.len();
        self.list.push(c);
        self.index.set(s, pos);
        proof {
            assert(s == slot(c, self.width));
            assert(self.index@ == old(self).index@.update(s as int, pos));
            assert forall|i: int|
                0 <= i < self.list@.len() implies spec_in_bounds(
                #[trigger] self.list@[i],
                self.width,
                self.height,
            ) && self.index@[slot(self.list@[i], self.width)] == i by {
                if i < pos {
                    assert(self.list@[i] == old(self).list@[i]);
                    assert(spec_in_bounds(old(self).list@[i], self.width, self.height));
                    lemma_slot_bound(self.list@[i], self.width, self.height);
                    assert(old(self).index@[slot(old(self).list@[i], self.width)] == i);
                    if slot(self.list@[i], self.width) == slot(c, self.width) {
                        lemma_slot_injective(self.list@[i], c, self.width, self.height);
                        assert(old(self).list@[i] == c);
                        assert(old(self).list@.contains(c));
                        assert(false);
                    }
                    assert(self.index@[slot(self.list@[i], self.width)] == old(
                        self,
                    ).index@[slot(self.list@[i], self.width)]);
                } else {
                    assert(self.list@[i] == c);
                    assert(self.index@[slot(c, self.width)] == pos);
                }
            }
            assert forall|x: Coordinate|
                self.spec_contains(x) == (old(self).spec_contains(x) || x == c) by {
                if self.spec_contains(x) {
                    let j = choose|j: int| 0 <= j < self.list@.len() && self.list@[j] == x;
                    if j < pos {
                        assert(old(self).list@[j] == x);
                    }
                }
                if old(self).spec_contains(x) {
                    let j = choose|j: int|
                        0 <= j < old(self).list@.len() && old(self).list@[j] == x;
                    assert(self.list@[j] == x);
                }
                if x == c {
                    assert(self.list@[pos as int] == x);
                }
            }
        }
    }

    /// Removes the member `c`, wherever it stands: O(1) through the reverse
    /// index, swapping the last member into the vacated position.
    pub fn remove_match(&mut self, c: Coordinate)
        requires
            old(self).wf(),
            old(self).spec_contains(c),
        ensures
            final (self).wf(),
            final (self).width == old(self).width,
            final (self).height == old(self).height,
            final (self)@ == crate::model::swap_remove_seq(old(self)@, old(self)@.index_of(c)),
            forall|x: Coordinate|
                final (self).spec_contains(x) == (old(self).spec_contains(x) && x != c),
    {
        let i = self.position_of(c);
        proof {
            self.lemma_unique();
            let j = old(self)@.index_of(c);
            assert(0 <= j < old(self)@.len() && old(self)@[j] == c);
            assert(j == i);
        }
        let _removed = self.remove_at(i);
    }

    /// Removes the member at dense position `i` by swapping the last member
    /// into its place: O(1), order not preserved.
    pub fn remove_at(&mut self, i: usize) -> (c: Coordinate)
        requires
            old(self).wf(),
            i < old(self)@.len(),
        ensures
            final (self).wf(),
            final (self).width == old(self).width,
            final (self).height == old(self).height,
            c == old(self)@[i as int],
            final (self)@ == old(self)@.update(i as int, old(self)@.last()).drop_last(),
            forall|x: Coordinate|
                final (self).spec_contains(x) == (old(self).spec_contains(x) && x != c),
    {
        proof {
            self.lemma_unique();
        }
        let ghost prev = *self;
        let c = self.list.swap_remove(i);
        if i < self.list.len() {
            let moved = self.list[i];
            proof {
                assert(moved == prev.list@.last());
                lemma_slot_bound(moved, self.width, self.height);
            }
            let ms: usize = (moved.y as usize) * (self.width as usize) + (moved.x as usize);
            self.index.set(ms, i);
        }
        proof {
            let n = prev.list@.len();
            assert forall|j: int|
                0 <= j < self.list@.len() implies spec_in_bounds(
                #[trigger] self.list@[j],
                self.width,
                self.height,
            ) && self.index@[slot(self.list@[j], self.width)] == j by {
                if i < n - 1 {
                    // a member moved: position i now holds the old last member
                    let moved = prev.list@[n - 1];
                    lemma_slot_bound(moved, self.width, self.height);
                    if j == i {
                        assert(self.list@[j] == moved);
                    } else {
                        assert(self.list@[j] == prev.list@[j]);
                        lemma_slot_bound(self.list@[j], self.width, self.height);
                        if slot(self.list@[j], self.width) == slot(moved, self.width) {
                            lemma_slot_injective(self.list@[j], moved, self.width, self.height);
                            assert(prev.list@[j] == prev.list@[n - 1]);
                        }
                        assert(self.index@[slot(self.list@[j], self.width)]
                            == prev.index@[slot(prev.list@[j], self.width)]);
                    }
                } else {
                    // the removed member was the last one; nothing moved
                    assert(self.list@[j] == prev.list@[j]);
                }
            }
            assert forall|x: Coordinate|
                self.spec_contains(x) == (prev.spec_contains(x) && x != c) by {
                if self.spec_contains(x) {
                    let j = choose|j: int| 0 <= j < self.list@.len() && self.list@[j] == x;
                    if j == i && i < n - 1 {
                        assert(prev.list@[n - 1] == x);
                    } else {
                        assert(prev.list@[j] == x);
                    }
                    assert(prev.spec_contains(x));
                    if x == c {
                        if j == i && i < n - 1 {
                            assert(prev.list@[n - 1] == prev.list@[i as int]);
                            assert(false);
                        } else {
                            assert(prev.list@[j] == prev.list@[i as int]);
                            assert(false);
                        }
                    }
                }
                if prev.spec_contains(x) && x != c {
                    let j = choose|j: int| 0 <= j < n && prev.list@[j] == x;
                    assert(j != i);
                    if j == n - 1 {
                        assert(i < n - 1);
                        assert(self.list@[i as int] == x);
                    } else {
                        assert(self.list@[j] == x);
                    }
                }
            }
        }
        c
    }
}

} // verus!
