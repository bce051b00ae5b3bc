//! The totally ordered classification produced by the adversarial search.
//!
//! From the placer's point of view, worst to best: every `Lose` is below
//! every `Play`, which is below every `Win`. Within `Lose`, being blocked
//! later (a larger turn count) is better; within `Win`, winning sooner (a
//! smaller turn count) is strictly better; within `Play`, a larger heuristic
//! edge distance for the dot is better.

use vstd::prelude::*;

verus! {

/// The best outcome of a branch of the game tree, for the placer.
#[derive(Clone, Copy, PartialEq, Eq, Structural, Debug)]
pub enum Outcome {
    /// The placer is blocked (the dot escapes) within the given number of
    /// further turns.
    Lose(u8),
    /// No forced result within the search horizon; carries the dot's
    /// heuristic distance to the edge at the horizon.
    Play(u8),
    /// The placer forces a win within the given number of further turns.
    Win(u8),
}

/// The ordering on outcomes, from the placer's point of view.
pub open spec fn outcome_le(a: Outcome, b: Outcome) -> bool {
    match (a, b) {
        (Outcome::Lose(x), Outcome::Lose(y)) => x <= y,
        (Outcome::Lose(_), _) => true,
        (Outcome::Play(_), Outcome::Lose(_)) => false,
        (Outcome::Play(x), Outcome::Play(y)) => x <= y,
        (Outcome::Play(_), Outcome::Win(_)) => true,
        (Outcome::Win(x), Outcome::Win(y)) => y <= x,
        (Outcome::Win(_), _) => false,
    }
}

/// The strict version of the ordering.
pub open spec fn outcome_lt(a: Outcome, b: Outcome) -> bool {
    !outcome_le(b, a)
}

impl Outcome {
    /// Compare two outcomes: is `self` at most as good as `other` for the
    /// placer?
    pub fn le(self, other: Outcome) -> (r: bool)
        ensures
            r == outcome_le(self, other),
    {
        match (self, other) {
            (Outcome::Lose(x), Outcome::Lose(y)) => x <= y,
            (Outcome::Lose(_), _) => true,
            (Outcome::Play(_), Outcome::Lose(_)) => false,
            (Outcome::Play(x), Outcome::Play(y)) => x <= y,
            (Outcome::Play(_), Outcome::Win(_)) => true,
            (Outcome::Win(x), Outcome::Win(y)) => y <= x,
            (Outcome::Win(_), _) => false,
        }
    }

    /// Convert an outcome for this turn into an outcome for the previous
    /// turn: a loss or a win moves one turn further away, a heuristic
    /// continuation is unchanged.
    pub fn inc(self) -> (r: Outcome)
        requires
            self matches Outcome::Lose(n) ==> n < 255,
            self matches Outcome::Win(n) ==> n < 255,
        ensures
            r == spec_inc(self),
    {
        match self {
            Outcome::Lose(n) => Outcome::Lose(n + 1),
            Outcome::Play(d) => Outcome::Play(d),
            Outcome::Win(n) => Outcome::Win(n + 1),
        }
    }
}

/// What [`Outcome::inc`] yields.
pub open spec fn spec_inc(o: Outcome) -> Outcome {
    match o {
        Outcome::Lose(n) => Outcome::Lose((n + 1) as u8),
        Outcome::Play(d) => Outcome::Play(d),
        Outcome::Win(n) => Outcome::Win((n + 1) as u8),
    }
}

/// Law: the outcome ordering is total.
pub proof fn lemma_outcome_order_total(a: Outcome, b: Outcome)
    ensures
        outcome_le(a, b) || outcome_le(b, a),
        outcome_le(a, a),
{
}

/// Law: the outcome ordering is transitive, and its strict part is
/// irreflexive and transitive, so it orders outcomes with ties only between
/// equal values.
pub proof fn lemma_outcome_order_transitive(a: Outcome, b: Outcome, c: Outcome)
    ensures
        outcome_le(a, b) && outcome_le(b, c) ==> outcome_le(a, c),
        !outcome_lt(a, a),
        outcome_lt(a, b) && outcome_lt(b, c) ==> outcome_lt(a, c),
        outcome_le(a, b) && outcome_le(b, a) ==> a == b,
{
}

/// Law: the ranking of the three variants, and the direction of the turn
/// counts within each. Every loss is strictly below every heuristic
/// continuation, which is strictly below every win; being blocked later is
/// strictly better than being blocked sooner (`Lose(3)` beats `Lose(1)`);
/// winning sooner is strictly better than winning later (`Win(1)` beats
/// `Win(3)`).
pub proof fn lemma_outcome_order_shape(x: u8, y: u8)
    ensures
        outcome_lt(Outcome::Lose(x), Outcome::Play(y)),
        outcome_lt(Outcome::Play(x), Outcome::Win(y)),
        outcome_lt(Outcome::Lose(x), Outcome::Win(y)),
        x < y ==> outcome_lt(Outcome::Lose(x), Outcome::Lose(y)),
        x < y ==> outcome_lt(Outcome::Win(y), Outcome::Win(x)),
        x < y ==> outcome_lt(Outcome::Play(x), Outcome::Play(y)),
{
}

} // verus!
