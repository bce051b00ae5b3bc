//! Depth-bounded minimax scoring of a state from each role's perspective.
//!
//! The score is the heuristic edge distance of the dot at depth zero, and
//! otherwise the negated best reply one ply down, minimizing over the
//! opponent's legal replies; a sentinel of magnitude 1000 stands in for a
//! forced loss or win and dominates every ordinary score. Callers should
//! rely only on sign and relative order, not on exact cancellation across
//! plies.

use vstd::prelude::*;

use crate::board::{
    lemma_branch_placer_entries, lemma_branch_placer_sound, lemma_open_cells_upto,
    open_cells_upto, spec_branch_dot_slot, spec_branch_placer, spec_move_dot, spec_placer_win,
    State,
};
use crate::geometry::{
    has_offboard_nbr, lemma_dist_bounds, lemma_nbr_index_valid, nbr_in_bounds, nbr_index,
    spec_dist_to_edge,
};

verus! {

/// The sentinel score standing in for a forced win; its negation stands in
/// for a forced loss.
pub const UTILITY_WIN: i16 = 1000;

/// The fixed search depth of the utility-maximizing strategies, trading
/// search cost against accuracy.
pub const UTILITY_DEPTH: u8 = 2;

/// The smaller of two scores.
pub open spec fn min2(a: int, b: int) -> int {
    if a <= b {
        a
    } else {
        b
    }
}

/// The placer-perspective score of `s` with the dot to move: a forced loss
/// when the dot can step off the board, a forced win when it is enclosed,
/// the dot's edge distance at the horizon, and otherwise the worst (for the
/// placer) negated dot reply.
pub open spec fn spec_util_placer(s: State, d: nat) -> int
    decreases d, 2int, 0int,
{
    if has_offboard_nbr(s.dot@) {
        -1000
    } else if spec_placer_win(s) {
        1000
    } else if d == 0 {
        spec_dist_to_edge(s.dot@)
    } else {
        spec_dot_replies_min(s, d, 6)
    }
}

/// The minimum over the dot's reply slots `[0, i)` of the negated score one
/// ply down. Blocked slots contribute nothing; an empty minimum is the
/// sentinel.
pub open spec fn spec_dot_replies_min(s: State, d: nat, i: int) -> int
    decreases d, 1int, i,
{
    if i <= 0 || d == 0 {
        1000
    } else {
        let rest = spec_dot_replies_min(s, d, i - 1);
        match spec_branch_dot_slot(s, i - 1) {
            Option::None => rest,
            Option::Some(opt) => match opt {
                Option::None => rest,
                Option::Some(m) => min2(rest, -spec_util_dot(m, (d - 1) as nat)),
            },
        }
    }
}

/// The dot-perspective score of `s` with the placer to move: the negated
/// dot edge distance at the horizon, and otherwise the worst (for the dot)
/// reply among all placements, a winning placement counting as the negated
/// sentinel.
pub open spec fn spec_util_dot(s: State, d: nat) -> int
    decreases d, 2int, 0int,
{
    if d == 0 {
        -spec_dist_to_edge(s.dot@)
    } else {
        spec_placer_replies_min(s, d, spec_branch_placer(s).len() as int)
    }
}

/// The minimum over the placer's replies `[0, k)` of the negated score one
/// ply down; an empty minimum is the sentinel.
pub open spec fn spec_placer_replies_min(s: State, d: nat, k: int) -> int
    decreases d, 1int, k,
{
    if k <= 0 || d == 0 {
        1000
    } else {
        let rest = spec_placer_replies_min(s, d, k - 1);
        match spec_branch_placer(s)[k - 1] {
            Option::None => min2(rest, -1000),
            Option::Some(t) => min2(rest, -spec_util_placer(t, (d - 1) as nat)),
        }
    }
}

/// Scores from the placer's perspective stay within the sentinel range.
pub proof fn lemma_util_placer_bounds(s: State, d: nat)
    requires
        s.wf(),
    ensures
        -1000 <= spec_util_placer(s, d) <= 1000,
    decreases d, 2int, 0int,
{
    lemma_dist_bounds(s.dot@);
    if !has_offboard_nbr(s.dot@) && !spec_placer_win(s) && d > 0 {
        lemma_dot_replies_bounds(s, d, 6);
    }
}

/// The dot-reply minimum stays within the sentinel range.
proof fn lemma_dot_replies_bounds(s: State, d: nat, i: int)
    requires
        s.wf(),
        i <= 6,
    ensures
        -1000 <= spec_dot_replies_min(s, d, i) <= 1000,
    decreases d, 1int, i,
{
    if i > 0 && d > 0 {
        lemma_dot_replies_bounds(s, d, i - 1);
        match spec_branch_dot_slot(s, i - 1) {
            Option::None => {},
            Option::Some(opt) => match opt {
                Option::None => {},
                Option::Some(m) => {
                    lemma_nbr_index_valid(s.dot@, i - 1);
                    assert(m.wf());
                    lemma_util_dot_bounds(m, (d - 1) as nat);
                },
            },
        }
    }
}

/// Scores from the dot's perspective stay within the sentinel range.
pub proof fn lemma_util_dot_bounds(s: State, d: nat)
    requires
        s.wf(),
    ensures
        -1000 <= spec_util_dot(s, d) <= 1000,
    decreases d, 2int, 0int,
{
    lemma_dist_bounds(s.dot@);
    if d > 0 {
        lemma_placer_replies_bounds(s, d, spec_branch_placer(s).len() as int);
    }
}

/// The placer-reply minimum stays within the sentinel range.
proof fn lemma_placer_replies_bounds(s: State, d: nat, k: int)
    requires
        s.wf(),
        k <= spec_branch_placer(s).len(),
    ensures
        -1000 <= spec_placer_replies_min(s, d, k) <= 1000,
    decreases d, 1int, k,
{
    if k > 0 && d > 0 {
        lemma_placer_replies_bounds(s, d, k - 1);
        match spec_branch_placer(s)[k - 1] {
            Option::None => {},
            Option::Some(t) => {
                lemma_branch_placer_sound(s);
                lemma_util_placer_bounds(t, (d - 1) as nat);
            },
        }
    }
}

/// A board with no open cell besides the dot's leaves the placer no reply.
pub proof fn lemma_no_reply_no_branches(s: State)
    requires
        s.wf(),
        forall|p: int| 0 <= p < 81 && p != s.dot@ ==> s.filled@[p],
    ensures
        spec_branch_placer(s).len() == 0,
{
    lemma_open_cells_upto(s, 81);
    lemma_branch_placer_entries(s, 81);
    if open_cells_upto(s, 81).len() > 0 {
        assert(0 <= open_cells_upto(s, 81)[0] < 81);
    }
}

/// The depth-bounded heuristic utility of `state` for the placer, with the
/// dot to move.
pub fn approx_utility_placer(state: State, depth: u8) -> (r: i16)
    requires
        state.wf(),
    ensures
        r as int == spec_util_placer(state, depth as nat),
        -1000 <= r <= 1000,
    decreases depth,
{
    proof {
        lemma_util_placer_bounds(state, depth as nat);
    }
    let branches = state.branch_dot();
    let mut i: usize = 0;
    while i < 6
        invariant
            i <= 6,
            state.wf(),
            forall|j: int| 0 <= j < 6 ==> #[trigger] branches@[j] == spec_branch_dot_slot(
                state, j),
            forall|j: int| 0 <= j < i ==> #[trigger] nbr_in_bounds(state.dot@, j),
        decreases 6 - i,
    {
        if let Some(None) = branches[i] {
            return -UTILITY_WIN;
        }
        i += 1;
    }
    assert(!has_offboard_nbr(state.dot@));
    if state.placer_win() {
        return UTILITY_WIN;
    }
    if depth == 0 {
        return state.dot().dist_to_edge() as i16;
    }
    let mut acc: i16 = UTILITY_WIN;
    let mut i: usize = 0;
    while i < 6
        invariant
            i <= 6,
            state.wf(),
            !has_offboard_nbr(state.dot@),
            !spec_placer_win(state),
            depth >= 1,
            forall|j: int| 0 <= j < 6 ==> #[trigger] branches@[j] == spec_branch_dot_slot(
                state, j),
            acc as int == spec_dot_replies_min(state, depth as nat, i as int),
            -1000 <= acc <= 1000,
        decreases 6 - i,
    {
        match branches[i] {
            Some(Some(m)) => {
                proof {
                    lemma_nbr_index_valid(state.dot@, i as int);
                    assert(m.wf());
                    assert(m == spec_move_dot(state, nbr_index(state.dot@, i as int)));
                    assert(m.filled == state.filled);
                    assert(m.dot@ != state.dot@);
                    assert(!m.filled@[state.dot@]);
                }
                let v = -approx_utility_dot(m, depth - 1);
                if v < acc {
                    acc = v;
                }
            },
            _ => {},
        }
        i += 1;
    }
    acc
}

/// The depth-bounded heuristic utility of `state` for the dot, with the
/// placer to move. Callers must leave the placer at least one legal reply;
/// invoking this on a board full up to the dot's cell is a caller error.
pub fn approx_utility_dot(state: State, depth: u8) -> (r: i16)
    requires
        state.wf(),
        exists|p: int| 0 <= p < 81 && p != state.dot@ && !(#[trigger] state.filled@[p]),
    ensures
        r as int == spec_util_dot(state, depth as nat),
        -1000 <= r <= 1000,
    decreases depth,
{
    proof {
        lemma_util_dot_bounds(state, depth as nat);
    }
    if depth == 0 {
        return -(state.dot().dist_to_edge() as i16);
    }
    let branches = state.branch_placer();
    proof {
        lemma_branch_placer_sound(state);
    }
    let mut acc: i16 = UTILITY_WIN;
    let mut k: usize = 0;
    while k < branches.len()
        invariant
            k <= branches@.len(),
            state.wf(),
            depth >= 1,
            branches@ == spec_branch_placer(state),
            acc as int == spec_placer_replies_min(state, depth as nat, k as int),
            -1000 <= acc <= 1000,
        decreases branches@.len() - k,
    {
        match branches[k] {
            None => {
                if -UTILITY_WIN < acc {
                    acc = -UTILITY_WIN;
                }
            },
            Some(t) => {
                proof {
                    lemma_branch_placer_sound(state);
                }
                let v = -approx_utility_placer(t, depth - 1);
                if v < acc {
                    acc = v;
                }
            },
        }
        k += 1;
    }
    acc
}

} // verus!
