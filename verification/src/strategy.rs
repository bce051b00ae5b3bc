//! Decision-makers for the two roles.
//!
//! A strategy maps a non-empty list of candidate successor states to the
//! index of the preferred one; the derived `play` method generates the legal
//! branches of a state, recognises terminal moves, and moves into the
//! preferred candidate.

use vstd::prelude::*;

use crate::board::{
    lemma_branch_placer_entries, lemma_branch_placer_nonempty, lemma_branch_placer_sound,
    lemma_open_cells_upto, open_cells_upto, spec_branch_dot_slot, spec_branch_placer,
    spec_fill_cell, spec_move_dot, spec_placer_win, spec_win_after, State,
};
use crate::geometry::{
    has_offboard_nbr, lemma_nbr_index_valid, nbr_in_bounds, nbr_index, spec_dist_to_edge,
};
use crate::outcome::{
    lemma_outcome_order_total, lemma_outcome_order_transitive, outcome_le, Outcome,
};
use crate::reach::{lemma_min_steps_some, spec_escapes_within, spec_min_steps};
use crate::rng::RandSource;
use crate::utility::{
    approx_utility_dot, approx_utility_placer, lemma_no_reply_no_branches, spec_util_dot,
    spec_util_placer, UTILITY_DEPTH, UTILITY_WIN,
};

verus! {

/// The fixed depth of the adversarial outcome search, in placer turns.
pub const SEARCH_DEPTH: u8 = 4;

/// Represents a strategy that could be used by the dot.
pub trait DotStrategy {
    /// Given a non-empty list of potential states, return the index of the
    /// state which is most preferred.
    fn preferred_state(&mut self, choices: &[State]) -> (r: usize)
        requires
            choices@.len() > 0,
            forall|j: int| 0 <= j < choices@.len() ==> (#[trigger] choices@[j]).wf(),
        ensures
            r < choices@.len(),
    ;

    /// Update the given state according to this strategy: move the dot into
    /// the preferred legal successor. Return `None` to indicate the game is
    /// over here: either a winning move (an open direction off the board) or
    /// a fully enclosed, immobile dot (the placer-win terminal).
    fn play(&mut self, state: State) -> (r: Option<State>)
        requires
            state.wf(),
        ensures
            r is None <==> has_offboard_nbr(state.dot@) || spec_placer_win(state),
            r matches Some(t) ==> t.wf() && exists|i: int|
                0 <= i < 6 && nbr_in_bounds(state.dot@, i) && !state.filled@[#[trigger] nbr_index(
                    state.dot@,
                    i,
                )] && t == spec_move_dot(state, nbr_index(state.dot@, i)),
    {
        let branches = state.branch_dot();
        let mut choices: Vec<State> = Vec::new();
        let mut i: usize = 0;
        while i < 6
            invariant
                i <= 6,
                state.wf(),
                forall|j: int| 0 <= j < 6 ==> #[trigger] branches@[j] == spec_branch_dot_slot(
                    state, j),
                forall|j: int| 0 <= j < i ==> #[trigger] nbr_in_bounds(state.dot@, j),
                choices@.len() > 0 || (forall|j: int|
                    0 <= j < i ==> state.filled@[#[trigger] nbr_index(state.dot@, j)]),
                forall|k: int|
                    0 <= k < choices@.len() ==> (#[trigger] choices@[k]).wf() && exists|jj: int|
                        0 <= jj < 6 && nbr_in_bounds(state.dot@, jj) && !state.filled@[
                            #[trigger] nbr_index(state.dot@, jj)] && choices@[k] == spec_move_dot(
                            state, nbr_index(state.dot@, jj)),
            decreases 6 - i,
        {
            match branches[i] {
                None => {},
                Some(None) => {
                    return None;
                },
                Some(Some(t)) => {
                    proof {
                        lemma_nbr_index_valid(state.dot@, i as int);
                        assert(nbr_in_bounds(state.dot@, i as int) && !state.filled@[nbr_index(
                            state.dot@,
                            i as int,
                        )] && t == spec_move_dot(state, nbr_index(state.dot@, i as int)));
                        assert(t.wf());
                    }
                    choices.push(t);
                },
            }
            i += 1;
        }
        if choices.len() == 0 {
            proof {
                assert(spec_placer_win(state));
            }
            return None;
        }
        proof {
            let jj = choose|jj: int|
                0 <= jj < 6 && nbr_in_bounds(state.dot@, jj) && !state.filled@[
                    #[trigger] nbr_index(state.dot@, jj)] && choices@[0] == spec_move_dot(
                    state,
                    nbr_index(state.dot@, jj),
                );
            assert(!spec_placer_win(state));
        }
        let idx = self.preferred_state(choices.as_slice());
        Some(choices[idx])
    }
}

/// Represents a strategy that could be used by the placer.
pub trait PlacerStrategy {
    /// Given a non-empty list of potential states, return the index of the
    /// state which is most preferred.
    fn preferred_state(&mut self, choices: &[State]) -> (r: usize)
        requires
            choices@.len() > 0,
            forall|j: int|
                0 <= j < choices@.len() ==> (#[trigger] choices@[j]).wf() && !spec_placer_win(
                    choices@[j]),
        ensures
            r < choices@.len(),
    ;

    /// Update the given state according to this strategy: place at the
    /// preferred open cell. Return `None` to indicate the game is over here:
    /// either a winning move (a placement that completes the enclosure of
    /// the dot) or, defensively, a board with no open cell left to place at.
    fn play(&mut self, state: State) -> (r: Option<State>)
        requires
            state.wf(),
        ensures
            r is None <==> (exists|p: int|
                0 <= p < 81 && p != state.dot@ && !state.filled@[p] && #[trigger] spec_win_after(
                    state, p)) || (forall|p: int|
                0 <= p < 81 && p != state.dot@ ==> #[trigger] state.filled@[p]),
            r matches Some(t) ==> t.wf() && !spec_placer_win(t) && t.dot == state.dot
                && exists|p: int|
                0 <= p < 81 && p != state.dot@ && !state.filled@[p] && !spec_win_after(state, p)
                    && t == #[trigger] spec_fill_cell(state, p),
    {
        let branches = state.branch_placer();
        let mut choices: Vec<State> = Vec::new();
        let mut k: usize = 0;
        while k < branches.len()
            invariant
                state.wf(),
                k <= branches@.len(),
                branches@ == spec_branch_placer(state),
                choices@.len() == k,
                forall|j: int| 0 <= j < k ==> #[trigger] branches@[j] == Some(choices@[j]),
            decreases branches@.len() - k,
        {
            match branches[k] {
                None => {
                    proof {
                        lemma_open_cells_upto(state, 81);
                        lemma_branch_placer_entries(state, 81);
                        let p = open_cells_upto(state, 81)[k as int];
                        assert(0 <= p < 81 && p != state.dot@ && !state.filled@[p]
                            && spec_win_after(state, p));
                    }
                    return None;
                },
                Some(t) => {
                    choices.push(t);
                },
            }
            k += 1;
        }
        proof {
            lemma_open_cells_upto(state, 81);
            lemma_branch_placer_entries(state, 81);
            lemma_branch_placer_sound(state);
            assert forall|p: int|
                0 <= p < 81 && p != state.dot@ && !state.filled@[p] implies !spec_win_after(
                state, p) by {
                assert(open_cells_upto(state, 81).contains(p));
                let j = choose|j: int|
                    0 <= j < open_cells_upto(state, 81).len() && open_cells_upto(state, 81)[j]
                        == p;
                assert(branches@[j] is Some);
            }
            assert forall|k2: int| 0 <= k2 < choices@.len() implies (#[trigger] choices@[k2]).wf()
                && !spec_placer_win(choices@[k2]) by {
                assert(branches@[k2] matches Some(t) && t == choices@[k2]);
            }
        }
        if choices.len() == 0 {
            proof {
                // an empty branch list means no cell is open at all
                assert forall|p: int| 0 <= p < 81 && p != state.dot@ implies state.filled@[
                    p] by {
                    if !state.filled@[p] {
                        assert(open_cells_upto(state, 81).contains(p));
                        let j = choose|j: int|
                            0 <= j < open_cells_upto(state, 81).len() && open_cells_upto(
                                state,
                                81,
                            )[j] == p;
                    }
                }
            }
            return None;
        }
        proof {
            // a surviving candidate names an open cell, so the board is not full
            lemma_nonwinning_entry(state, 0);
        }
        let idx = self.preferred_state(choices.as_slice());
        proof {
            lemma_nonwinning_entry(state, idx as int);
        }
        Some(choices[idx])
    }
}

/// The branch at a `Some` entry of the placer's branch list is the fill of
/// an open cell that does not win.
proof fn lemma_nonwinning_entry(s: State, k: int)
    requires
        s.wf(),
        0 <= k < spec_branch_placer(s).len(),
        spec_branch_placer(s)[k] is Some,
    ensures
        spec_branch_placer(s)[k] matches Some(t) ==> t.wf() && !spec_placer_win(t) && t.dot
            == s.dot && exists|p: int|
            0 <= p < 81 && p != s.dot@ && !s.filled@[p] && !spec_win_after(s, p) && t
                == #[trigger] spec_fill_cell(s, p),
{
    lemma_open_cells_upto(s, 81);
    lemma_branch_placer_entries(s, 81);
    lemma_branch_placer_sound(s);
    let p = open_cells_upto(s, 81)[k];
    assert(spec_branch_placer(s)[k] == Some(spec_fill_cell(s, p)));
}

/// A dumb strategy for the dot, moving towards whichever state gives it the
/// smallest straight-line distance to the edge (obstacles ignored). Of equal
/// candidates the first wins.
pub struct DumbPathfind;

impl DotStrategy for DumbPathfind {
    fn preferred_state(&mut self, choices: &[State]) -> (r: usize)
        ensures
            forall|j: int|
                0 <= j < choices@.len() ==> spec_dist_to_edge(choices@[r as int].dot@)
                    <= spec_dist_to_edge((#[trigger] choices@[j]).dot@),
            forall|j: int|
                0 <= j < r ==> spec_dist_to_edge((#[trigger] choices@[j]).dot@)
                    > spec_dist_to_edge(choices@[r as int].dot@),
    {
        let mut best: usize = 0;
        let mut best_key: u8 = choices[0].dot().dist_to_edge();
        let mut j: usize = 1;
        while j < choices.len()
            invariant
                1 <= j <= choices@.len(),
                best < j,
                forall|i: int| 0 <= i < choices@.len() ==> (#[trigger] choices@[i]).wf(),
                best_key == spec_dist_to_edge(choices@[best as int].dot@),
                forall|i: int|
                    0 <= i < j ==> best_key <= spec_dist_to_edge(
                        (#[trigger] choices@[i]).dot@),
                forall|i: int|
                    0 <= i < best ==> spec_dist_to_edge((#[trigger] choices@[i]).dot@)
                        > best_key,
            decreases choices@.len() - j,
        {
            let key = choices[j].dot().dist_to_edge();
            if key < best_key {
                best = j;
                best_key = key;
            }
            j += 1;
        }
        best
    }
}

/// The ordering on breadth-first escape distances: absence of a path sorts
/// as strictly worse (larger) than any numeric distance.
pub open spec fn steps_key_le(a: Option<int>, b: Option<int>) -> bool {
    match (a, b) {
        (Some(x), Some(y)) => x <= y,
        (Some(_), None) => true,
        (None, None) => true,
        (None, Some(_)) => false,
    }
}

/// A slightly less dumb strategy for the dot: it takes obstacles into
/// account, moving towards whichever state gives it the smallest
/// breadth-first distance to the edge. A sealed-in candidate counts as
/// farther than any reachable distance; of equal candidates the first wins.
pub struct SmartPathfind;

impl DotStrategy for SmartPathfind {
    #[verifier::rlimit(50)]
    fn preferred_state(&mut self, choices: &[State]) -> (r: usize)
        ensures
            forall|j: int|
                0 <= j < choices@.len() ==> steps_key_le(
                    spec_min_steps(choices@[r as int]),
                    spec_min_steps(#[trigger] choices@[j]),
                ),
            forall|j: int|
                0 <= j < r ==> !steps_key_le(
                    spec_min_steps(#[trigger] choices@[j]),
                    spec_min_steps(choices@[r as int]),
                ),
    {
        let mut best: usize = 0;
        let mut best_key: Option<u8> = choices[0].dist_to_reach_edge();
        proof {
            lemma_key_matches(choices@[0], best_key);
        }
        let mut j: usize = 1;
        while j < choices.len()
            invariant
                1 <= j <= choices@.len(),
                best < j,
                forall|i: int| 0 <= i < choices@.len() ==> (#[trigger] choices@[i]).wf(),
                key_matches(choices@[best as int], best_key),
                forall|i: int|
                    0 <= i < j ==> steps_key_le(
                        spec_min_steps(choices@[best as int]),
                        spec_min_steps(#[trigger] choices@[i]),
                    ),
                forall|i: int|
                    0 <= i < best ==> !steps_key_le(
                        spec_min_steps(#[trigger] choices@[i]),
                        spec_min_steps(choices@[best as int]),
                    ),
            decreases choices@.len() - j,
        {
            let key = choices[j].dist_to_reach_edge();
            proof {
                lemma_key_matches(choices@[j as int], key);
            }
            let better = match (key, best_key) {
                (Some(x), Some(y)) => x < y,
                (Some(_), None) => true,
                (None, _) => false,
            };
            if better {
                best = j;
                best_key = key;
            }
            j += 1;
        }
        best
    }
}

/// The executable escape distance stands for the spec one.
pub open spec fn key_matches(s: State, key: Option<u8>) -> bool {
    match key {
        Some(u) => spec_min_steps(s) == Some(u as int),
        None => spec_min_steps(s) is None,
    }
}

/// What [`State::dist_to_reach_edge`] ensures pins its result to
/// [`spec_min_steps`].
proof fn lemma_key_matches(s: State, key: Option<u8>)
    requires
        key matches Some(d) ==> spec_escapes_within(s, d as int) && forall|k: int|
            k < d ==> !spec_escapes_within(s, k),
        key is None ==> forall|k: int| !(#[trigger] spec_escapes_within(s, k)),
    ensures
        key_matches(s, key),
{
    match key {
        Some(d) => {
            lemma_min_steps_some(s, d as int);
        },
        None => {
            reveal(spec_min_steps);
            assert(!exists|k: int| spec_escapes_within(s, k));
        },
    }
}

/// A dot strategy choosing the candidate that minimizes the placer-facing
/// heuristic utility at the fixed depth [`UTILITY_DEPTH`]. Of equal
/// candidates the first wins.
pub struct DotUtilityMax;

impl DotStrategy for DotUtilityMax {
    fn preferred_state(&mut self, choices: &[State]) -> (r: usize)
        ensures
            forall|j: int|
                0 <= j < choices@.len() ==> spec_util_placer(
                    choices@[r as int],
                    UTILITY_DEPTH as nat,
                ) <= spec_util_placer(#[trigger] choices@[j], UTILITY_DEPTH as nat),
            forall|j: int|
                0 <= j < r ==> spec_util_placer(#[trigger] choices@[j], UTILITY_DEPTH as nat)
                    > spec_util_placer(choices@[r as int], UTILITY_DEPTH as nat),
    {
        let mut best: usize = 0;
        let mut best_key: i16 = approx_utility_placer(choices[0], UTILITY_DEPTH);
        let mut j: usize = 1;
        while j < choices.len()
            invariant
                1 <= j <= choices@.len(),
                best < j,
                forall|i: int| 0 <= i < choices@.len() ==> (#[trigger] choices@[i]).wf(),
                best_key as int == spec_util_placer(choices@[best as int], UTILITY_DEPTH as nat),
                forall|i: int|
                    0 <= i < j ==> best_key as int <= spec_util_placer(
                        #[trigger] choices@[i],
                        UTILITY_DEPTH as nat,
                    ),
                forall|i: int|
                    0 <= i < best ==> spec_util_placer(#[trigger] choices@[i], UTILITY_DEPTH as nat)
                        > best_key as int,
            decreases choices@.len() - j,
        {
            let key = approx_utility_placer(choices[j], UTILITY_DEPTH);
            if key < best_key {
                best = j;
                best_key = key;
            }
            j += 1;
        }
        best
    }
}

/// The dot-facing utility of a placer candidate. A candidate that leaves no
/// further placement at all scores as the empty reply minimum, the win
/// sentinel.
fn utility_dot_key(s: State) -> (r: i16)
    requires
        s.wf(),
    ensures
        r as int == spec_util_dot(s, UTILITY_DEPTH as nat),
{
    if s.has_open_cell() {
        approx_utility_dot(s, UTILITY_DEPTH)
    } else {
        proof {
            lemma_no_reply_no_branches(s);
            assert(spec_util_dot(s, UTILITY_DEPTH as nat) == 1000);
        }
        UTILITY_WIN
    }
}

/// A placer strategy choosing the candidate that minimizes the dot-facing
/// heuristic utility at the fixed depth [`UTILITY_DEPTH`]. Of equal
/// candidates the first wins.
pub struct PlacerUtilityMax;

impl PlacerStrategy for PlacerUtilityMax {
    fn preferred_state(&mut self, choices: &[State]) -> (r: usize)
        ensures
            forall|j: int|
                0 <= j < choices@.len() ==> spec_util_dot(
                    choices@[r as int],
                    UTILITY_DEPTH as nat,
                ) <= spec_util_dot(#[trigger] choices@[j], UTILITY_DEPTH as nat),
            forall|j: int|
                0 <= j < r ==> spec_util_dot(#[trigger] choices@[j], UTILITY_DEPTH as nat)
                    > spec_util_dot(choices@[r as int], UTILITY_DEPTH as nat),
    {
        let mut best: usize = 0;
        let mut best_key: i16 = utility_dot_key(choices[0]);
        let mut j: usize = 1;
        while j < choices.len()
            invariant
                1 <= j <= choices@.len(),
                best < j,
                forall|i: int| 0 <= i < choices@.len() ==> (#[trigger] choices@[i]).wf(),
                best_key as int == spec_util_dot(choices@[best as int], UTILITY_DEPTH as nat),
                forall|i: int|
                    0 <= i < j ==> best_key as int <= spec_util_dot(
                        #[trigger] choices@[i],
                        UTILITY_DEPTH as nat,
                    ),
                forall|i: int|
                    0 <= i < best ==> spec_util_dot(#[trigger] choices@[i], UTILITY_DEPTH as nat)
                        > best_key as int,
            decreases choices@.len() - j,
        {
            let key = utility_dot_key(choices[j]);
            if key < best_key {
                best = j;
                best_key = key;
            }
            j += 1;
        }
        best
    }
}

/// A strategy for the placer which is parameterized by an assumption about
/// what strategy the dot will use next turn. It conducts a brute-force
/// search for the best reachable [`Outcome`] down to [`SEARCH_DEPTH`] turns,
/// breaking ties between equally good placements with the injected
/// randomness source.
pub struct PlacerPredictive<R, S> {
    /// The randomness source used only for tie-breaking.
    pub rng: R,
    /// The model of how the dot will reply.
    pub dot_strategy: S,
}

impl<R, S> PlacerPredictive<R, S> {
    /// Build the strategy from its tie-breaking source and its model of the
    /// dot.
    pub fn new(rng: R, dot_strategy: S) -> (r: Self)
        ensures
            r.rng == rng,
            r.dot_strategy == dot_strategy,
    {
        Self { rng, dot_strategy }
    }
}

/// Determine the best outcome the placer can reach within `n` of its turns,
/// assuming it is the dot's turn and the dot moves according to
/// `dot_strategy`. A blocked dot strategy is an immediate loss; a winning
/// placement an immediate win; at depth zero the dot's heuristic distance is
/// reported exactly. The turn counts carried by the result never exceed the
/// depth, and an immediate loss is reported if and only if the dot can step
/// off the board at once.
fn search<S: DotStrategy>(state: State, dot_strategy: &mut S, n: u8) -> (r: Outcome)
    requires
        state.wf(),
        !spec_placer_win(state),
        n <= 4,
    ensures
        n == 0 ==> r == Outcome::Play(spec_dist_to_edge(state.dot@) as u8),
        n >= 1 ==> (r == Outcome::Lose(0) <==> has_offboard_nbr(state.dot@)),
        r matches Outcome::Lose(k) ==> k <= n,
        r matches Outcome::Win(k) ==> k <= n,
        r matches Outcome::Play(d) ==> d <= 5,
    decreases n,
{
    if n == 0 {
        Outcome::Play(state.dot().dist_to_edge())
    } else {
        let dot_state = match dot_strategy.play(state) {
            Some(s) => s,
            None => {
                return Outcome::Lose(0);
            },
        };
        proof {
            // The cell the dot just left is open again, so the placer has at
            // least one legal reply.
            let i = choose|i: int|
                0 <= i < 6 && nbr_in_bounds(state.dot@, i) && !state.filled@[#[trigger] nbr_index(
                    state.dot@,
                    i,
                )] && dot_state == spec_move_dot(state, nbr_index(state.dot@, i));
            lemma_nbr_index_valid(state.dot@, i);
            lemma_branch_placer_nonempty(dot_state, state.dot@);
            lemma_branch_placer_sound(dot_state);
        }
        let branches = dot_state.branch_placer();
        let mut cands: Vec<Outcome> = Vec::new();
        let mut k: usize = 0;
        while k < branches.len()
            invariant
                dot_state.wf(),
                branches@ == spec_branch_placer(dot_state),
                k <= branches@.len(),
                1 <= n <= 4,
                cands@.len() == k,
                forall|i: int|
                    0 <= i < k ==> ((#[trigger] cands@[i]) matches Outcome::Lose(b) ==> 1 <= b
                        <= n),
                forall|i: int|
                    0 <= i < k ==> ((#[trigger] cands@[i]) matches Outcome::Win(b) ==> b <= n),
                forall|i: int|
                    0 <= i < k ==> ((#[trigger] cands@[i]) matches Outcome::Play(d) ==> d <= 5),
            decreases branches@.len() - k,
        {
            let cand: Outcome = match branches[k] {
                None => Outcome::Win(0),
                Some(ns) => {
                    proof {
                        lemma_branch_placer_sound(dot_state);
                    }
                    search(ns, dot_strategy, n - 1).inc()
                },
            };
            cands.push(cand);
            k += 1;
        }
        let best = best_outcome(cands.as_slice());
        proof {
            let j = choose|j: int| 0 <= j < cands@.len() && best == cands@[j];
        }
        best
    }
}

/// The greatest outcome in a non-empty list, under the outcome order.
fn best_outcome(outcomes: &[Outcome]) -> (r: Outcome)
    requires
        outcomes@.len() > 0,
    ensures
        exists|j: int| 0 <= j < outcomes@.len() && r == #[trigger] outcomes@[j],
        forall|j: int| 0 <= j < outcomes@.len() ==> outcome_le(#[trigger] outcomes@[j], r),
{
    let mut best: Outcome = outcomes[0];
    let mut j: usize = 1;
    while j < outcomes.len()
        invariant
            1 <= j <= outcomes@.len(),
            exists|i: int| 0 <= i < j && best == #[trigger] outcomes@[i],
            forall|i: int| 0 <= i < j ==> outcome_le(#[trigger] outcomes@[i], best),
        decreases outcomes@.len() - j,
    {
        let o = outcomes[j];
        if best.le(o) {
            proof {
                assert forall|i: int| 0 <= i < j + 1 implies outcome_le(
                    #[trigger] outcomes@[i],
                    o,
                ) by {
                    if i < j {
                        lemma_outcome_order_transitive(outcomes@[i], best, o);
                    }
                }
            }
            best = o;
        } else {
            proof {
                lemma_outcome_order_total(o, best);
            }
        }
        j += 1;
    }
    best
}

/// The index of the candidate with the greatest outcome under the outcome
/// order. Exact ties on the outcome are broken by the larger tie byte, and
/// remaining exact ties by the later index, so the last-enumerated candidate
/// is not favored whenever the drawn bytes differ.
fn select_best(outcomes: &[Outcome], ties: &[u8]) -> (r: usize)
    requires
        outcomes@.len() == ties@.len(),
        outcomes@.len() > 0,
    ensures
        r < outcomes@.len(),
        forall|j: int|
            0 <= j < outcomes@.len() ==> outcome_le(#[trigger] outcomes@[j], outcomes@[r as int]),
        forall|j: int|
            r < j < outcomes@.len() ==> !(#[trigger] outcomes@[j] == outcomes@[r as int]
                && ties@[j] >= ties@[r as int]),
        forall|j: int|
            0 <= j < r ==> !(#[trigger] outcomes@[j] == outcomes@[r as int] && ties@[j]
                > ties@[r as int]),
{
    let mut best: usize = 0;
    let mut j: usize = 1;
    while j < outcomes.len()
        invariant
            outcomes@.len() == ties@.len(),
            1 <= j <= outcomes@.len(),
            best < j,
            forall|i: int|
                0 <= i < j ==> outcome_le(#[trigger] outcomes@[i], outcomes@[best as int]),
            forall|i: int|
                best < i < j ==> !(#[trigger] outcomes@[i] == outcomes@[best as int] && ties@[i]
                    >= ties@[best as int]),
            forall|i: int|
                0 <= i < best ==> !(#[trigger] outcomes@[i] == outcomes@[best as int] && ties@[i]
                    > ties@[best as int]),
        decreases outcomes@.len() - j,
    {
        let bo = outcomes[best];
        let o = outcomes[j];
        let take = if bo.le(o) {
            if o.le(bo) {
                ties[j] >= ties[best]
            } else {
                true
            }
        } else {
            false
        };
        if take {
            proof {
                lemma_outcome_order_transitive(o, bo, o);
                assert forall|i: int| 0 <= i < j + 1 implies outcome_le(
                    #[trigger] outcomes@[i],
                    outcomes@[j as int],
                ) by {
                    if i < j {
                        lemma_outcome_order_transitive(outcomes@[i], bo, o);
                    }
                }
                assert forall|i: int|
                    0 <= i < j implies !(#[trigger] outcomes@[i] == outcomes@[j as int]
                    && ties@[i] > ties@[j as int]) by {
                    if outcomes@[i] == outcomes@[j as int] {
                        // the new best's outcome equals the old one: otherwise
                        // no earlier candidate could share it
                        lemma_outcome_order_transitive(o, outcomes@[i], bo);
                        assert(o == bo);
                    }
                }
            }
            best = j;
        } else {
            proof {
                lemma_outcome_order_total(o, bo);
                lemma_outcome_order_transitive(bo, o, bo);
            }
        }
        j += 1;
    }
    best
}

impl<R: RandSource, S: DotStrategy> PlacerStrategy for PlacerPredictive<R, S> {
    fn preferred_state(&mut self, choices: &[State]) -> (r: usize) {
        let mut outcomes: Vec<Outcome> = Vec::new();
        let mut ties: Vec<u8> = Vec::new();
        let mut j: usize = 0;
        while j < choices.len()
            invariant
                j <= choices@.len(),
                choices@.len() > 0,
                outcomes@.len() == j,
                ties@.len() == j,
                forall|i: int|
                    0 <= i < choices@.len() ==> (#[trigger] choices@[i]).wf()
                        && !spec_placer_win(choices@[i]),
            decreases choices@.len() - j,
        {
            let o = search(choices[j], &mut self.dot_strategy, SEARCH_DEPTH);
            outcomes.push(o);
            let t = self.rng.byte();
            ties.push(t);
            j += 1;
        }
        select_best(outcomes.as_slice(), ties.as_slice())
    }
}

} // verus!
