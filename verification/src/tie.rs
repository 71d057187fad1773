//! The injectable random-choice source used to resolve exact score ties.
//!
//! Selection among tied candidates draws one binary choice per tie. With a
//! `Fixed` or `Seeded` source the draw is a pure function of the source's
//! state, so runs are reproducible; `System` draws from the process's
//! thread-local generator.

use vstd::prelude::*;

verus! {

/// Relies on rand::random: draws a value of `T` from the thread-local
/// generator. Nothing is promised of the value.
pub assume_specification<T>[ rand::random::<T> ]() -> (r: T)
    where
        rand::distributions::Standard: rand::distributions::Distribution<T>,
;

/// A source of tie-break choices.
#[derive(Clone, Copy, PartialEq, Eq, Structural, Debug)]
pub enum TieBreaker {
    /// Every tie keeps (or never keeps) the currently best candidate.
    Fixed { keep_current: bool },
    /// A seeded xorshift generator: deterministic for a given seed.
    Seeded { state: u64 },
    /// The process's random generator; not reproducible.
    System,
}

/// One xorshift64 step of the seeded generator.
pub open spec fn spec_xorshift(s: u64) -> u64 {
    let a = s ^ (s << 13);
    let b = a ^ (a >> 7);
    b ^ (b << 17)
}

/// What a deterministic source answers, and its state afterwards. For the
/// `System` source this value carries no promise.
pub open spec fn spec_flip(tb: TieBreaker) -> (bool, TieBreaker) {
    match tb {
        TieBreaker::Fixed { keep_current } => (keep_current, tb),
        TieBreaker::Seeded { state } => {
            let next = spec_xorshift(state);
            ((next & 1) == 1, TieBreaker::Seeded { state: next })
        },
        TieBreaker::System => (false, TieBreaker::System),
    }
}

impl TieBreaker {
    /// Whether two draws from equal states are guaranteed equal.
    pub open spec fn is_deterministic(&self) -> bool {
        !(self is System)
    }

    /// Draws one tie-break choice: `true` keeps the current best candidate,
    /// `false` adopts the newly tied one.
    pub fn flip(&mut self) -> (b: bool)
        ensures
            old(self).is_deterministic() ==> b == spec_flip(*old(self)).0 && *final (self)
                == spec_flip(*old(self)).1,
            !old(self).is_deterministic() ==> *final (self) == *old(self),
            final (self).is_deterministic() == old(self).is_deterministic(),
    {
        match self {
            TieBreaker::Fixed { keep_current } => *keep_current,
            TieBreaker::Seeded { state } => {
                let s: u64 = *state;
                let a: u64 = s ^ (s << 13u64);
                let b: u64 = a ^ (a >> 7u64);
                let next: u64 = b ^ (b << 17u64);
                *state = next;
                (next & 1u64) == 1u64
            },
            TieBreaker::System => rand::random::<bool>(),
        }
    }
}

} // verus!
