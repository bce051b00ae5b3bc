//! The injected randomness capability.
//!
//! The engine never talks to a random-number generator directly: whatever
//! needs random values takes a [`RandSource`] by unique access. A replayable
//! source backed by a fixed byte sequence lives here, so games and searches
//! can be reproduced exactly; an embedding program may implement the trait
//! on top of any real generator.

use vstd::prelude::*;

verus! {

/// A supplier of uniform random values.
pub trait RandSource {
    /// Return a value chosen uniformly below `n`.
    fn below(&mut self, n: u8) -> (r: u8)
        requires
            n > 0,
        ensures
            r < n,
    ;

    /// Return an arbitrary byte, used for tie-breaking between equally good
    /// moves.
    fn byte(&mut self) -> (r: u8);
}

/// A randomness source that replays a fixed sequence of bytes, wrapping
/// around at the end. An empty sequence yields zeros forever.
pub struct ReplaySource {
    /// The bytes to replay, in order.
    pub values: Vec<u8>,
    /// The index of the next byte to hand out.
    pub next: usize,
}

/// The index of the byte a replay source hands out next (an out-of-range
/// cursor restarts at the front).
pub open spec fn replay_index(s: ReplaySource) -> int {
    if s.next < s.values@.len() {
        s.next as int
    } else {
        0
    }
}

/// The byte a replay source hands out next.
pub open spec fn replay_output(s: ReplaySource) -> u8 {
    if s.values@.len() == 0 {
        0
    } else {
        s.values@[replay_index(s)]
    }
}

/// The cursor position after a replay source hands out one byte.
pub open spec fn replay_advanced(s: ReplaySource) -> int {
    if replay_index(s) + 1 < s.values@.len() {
        replay_index(s) + 1
    } else {
        0
    }
}

impl ReplaySource {
    /// Build a source that replays `values` from the start.
    pub fn new(values: Vec<u8>) -> (r: ReplaySource)
        ensures
            r.values == values,
            r.next == 0,
    {
        ReplaySource { values, next: 0 }
    }

    /// Hand out the next byte of the sequence, wrapping around.
    fn take(&mut self) -> (r: u8)
        ensures
            r == replay_output(*old(self)),
            final(self).values == old(self).values,
            final(self).next == replay_advanced(*old(self)),
    {
        if self.values.len() == 0 {
            self.next = 0;
            0
        } else {
            let idx = if self.next < self.values.len() {
                self.next
            } else {
                0
            };
            let v = self.values[idx];
            self.next = if idx + 1 < self.values.len() {
                idx + 1
            } else {
                0
            };
            v
        }
    }
}

impl RandSource for ReplaySource {
    fn below(&mut self, n: u8) -> (r: u8)
        ensures
            r == replay_output(*old(self)) % n,
            final(self).values == old(self).values,
            final(self).next == replay_advanced(*old(self)),
    {
        self.take() % n
    }

    fn byte(&mut self) -> (r: u8)
        ensures
            r == replay_output(*old(self)),
            final(self).values == old(self).values,
            final(self).next == replay_advanced(*old(self)),
    {
        self.take()
    }
}

} // verus!
