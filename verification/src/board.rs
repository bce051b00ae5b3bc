//! The state of an active game: which cells are filled, and where the dot
//! sits. A `State` is a small copyable value; every mutation works on a
//! private copy, so branching the game tree never shares state.

use vstd::prelude::*;

use crate::geometry::{
    adjacent, lemma_nbr_index_valid, nbr_in_bounds, nbr_index, spec_neighbor, Pos,
};
use crate::rng::RandSource;

verus! {

/// The state of an active game: a fixed-size set of filled cells plus the
/// dot's current position. Invariant (see [`State::wf`]): the dot's cell is
/// never itself filled.
#[derive(Clone, Copy, Debug)]
pub struct State {
    /// Which cells are filled, indexed by cell index.
    pub filled: [bool; 81],
    /// The dot's current position.
    pub dot: Pos,
}

/// The state obtained from `s` by filling cell `p`.
pub open spec fn spec_fill_cell(s: State, p: int) -> State {
    State { filled: vstd::array::spec_array_update(s.filled, p, true), dot: s.dot }
}

/// The state obtained from `s` by moving the dot to cell `q`.
pub open spec fn spec_move_dot(s: State, q: int) -> State {
    State { filled: s.filled, dot: Pos(q as u8) }
}

/// The placer has won: every one of the dot's six neighbor directions stays
/// on the board and leads to a filled cell, so the dot cannot move at all.
pub open spec fn spec_placer_win(s: State) -> bool {
    forall|i: int|
        0 <= i < 6 ==> #[trigger] nbr_in_bounds(s.dot@, i) && s.filled@[nbr_index(s.dot@, i)]
}

/// Filling cell `p` of `s` completes the enclosure of the dot.
pub open spec fn spec_win_after(s: State, p: int) -> bool {
    spec_placer_win(spec_fill_cell(s, p))
}

/// What the dot's move in direction `i` yields: `Some(None)` when the
/// direction leaves the board (the dot escapes and wins), `None` when the
/// neighbor cell is filled (no legal move), and the moved state otherwise.
pub open spec fn spec_branch_dot_slot(s: State, i: int) -> Option<Option<State>> {
    if !nbr_in_bounds(s.dot@, i) {
        Some(None)
    } else if s.filled@[nbr_index(s.dot@, i)] {
        None
    } else {
        Some(Some(spec_move_dot(s, nbr_index(s.dot@, i))))
    }
}

/// The placer's branch list restricted to placements at cells below `n`,
/// in row-major order: `None` for a placement that wins outright, the
/// successor state otherwise. Filled cells and the dot's cell yield nothing.
pub open spec fn spec_branch_placer_upto(s: State, n: int) -> Seq<Option<State>>
    decreases n,
{
    if n <= 0 {
        Seq::empty()
    } else {
        let prefix = spec_branch_placer_upto(s, n - 1);
        let p = n - 1;
        if p == s.dot@ || s.filled@[p] {
            prefix
        } else if spec_win_after(s, p) {
            prefix.push(None)
        } else {
            prefix.push(Some(spec_fill_cell(s, p)))
        }
    }
}

/// The row-major list of cells below `n` that are open for a placement:
/// neither filled nor under the dot.
pub open spec fn open_cells_upto(s: State, n: int) -> Seq<int>
    decreases n,
{
    if n <= 0 {
        Seq::empty()
    } else {
        let prefix = open_cells_upto(s, n - 1);
        let p = n - 1;
        if p == s.dot@ || s.filled@[p] {
            prefix
        } else {
            prefix.push(p)
        }
    }
}

/// The placer's full branch list over the whole board.
pub open spec fn spec_branch_placer(s: State) -> Seq<Option<State>> {
    spec_branch_placer_upto(s, 81)
}

/// The open-cell list holds exactly the open cells below `n`, in strictly
/// increasing order.
pub proof fn lemma_open_cells_upto(s: State, n: int)
    requires
        n <= 81,
    ensures
        forall|k: int|
            0 <= k < open_cells_upto(s, n).len() ==> 0 <= #[trigger] open_cells_upto(s, n)[k] < n
                && open_cells_upto(s, n)[k] != s.dot@ && !s.filled@[open_cells_upto(s, n)[k]],
        forall|k1: int, k2: int|
            0 <= k1 < k2 < open_cells_upto(s, n).len() ==> #[trigger] open_cells_upto(s, n)[k1]
                < #[trigger] open_cells_upto(s, n)[k2],
        forall|p: int|
            0 <= p < n && p != s.dot@ && !s.filled@[p] ==> open_cells_upto(s, n).contains(p),
    decreases n,
{
    if n > 0 {
        lemma_open_cells_upto(s, n - 1);
        let prev = open_cells_upto(s, n - 1);
        let cur = open_cells_upto(s, n);
        assert forall|p: int| 0 <= p < n && p != s.dot@ && !s.filled@[p] implies cur.contains(
            p,
        ) by {
            if p < n - 1 {
                let k = choose|k: int| 0 <= k < prev.len() && prev[k] == p;
                assert(cur[k] == p);
            } else {
                assert(cur[cur.len() - 1] == p);
            }
        }
    }
}

/// Each placer branch is the classification of the matching open cell:
/// `None` where the placement wins, the filled successor otherwise.
pub proof fn lemma_branch_placer_entries(s: State, n: int)
    requires
        n <= 81,
    ensures
        spec_branch_placer_upto(s, n).len() == open_cells_upto(s, n).len(),
        forall|k: int|
            0 <= k < open_cells_upto(s, n).len() ==> #[trigger] spec_branch_placer_upto(s, n)[k]
                == (if spec_win_after(s, open_cells_upto(s, n)[k]) {
                None
            } else {
                Some(spec_fill_cell(s, open_cells_upto(s, n)[k]))
            }),
    decreases n,
{
    if n > 0 {
        lemma_branch_placer_entries(s, n - 1);
    }
}

/// Law: the placer's branch list never yields a state whose dot cell became
/// filled, and never yields the same successor state for two different
/// placements. Every yielded state is well formed, keeps the dot where it
/// was, and is not itself already won.
pub proof fn lemma_branch_placer_sound(s: State)
    requires
        s.wf(),
    ensures
        forall|k: int|
            0 <= k < spec_branch_placer(s).len() ==> (#[trigger] spec_branch_placer(s)[k] matches
            Some(t) ==> t.wf() && t.dot == s.dot && !t.filled@[s.dot@] && !spec_placer_win(t)),
        forall|k1: int, k2: int|
            0 <= k1 < spec_branch_placer(s).len() && 0 <= k2 < spec_branch_placer(s).len() && k1
                != k2 && spec_branch_placer(s)[k1] is Some && spec_branch_placer(s)[k2] is Some
                ==> spec_branch_placer(s)[k1] != spec_branch_placer(s)[k2],
{
    lemma_open_cells_upto(s, 81);
    lemma_branch_placer_entries(s, 81);
    let cells = open_cells_upto(s, 81);
    let branches = spec_branch_placer(s);
    assert forall|k: int|
        0 <= k < branches.len() implies (#[trigger] branches[k] matches Some(t) ==> t.wf()
        && t.dot == s.dot && !t.filled@[s.dot@] && !spec_placer_win(t)) by {
        if branches[k] is Some {
            let p = cells[k];
            let t = spec_fill_cell(s, p);
            assert(t.filled@ == s.filled@.update(p, true));
            assert(!t.filled@[s.dot@]);
        }
    }
    assert forall|k1: int, k2: int|
        0 <= k1 < branches.len() && 0 <= k2 < branches.len() && k1 != k2 && branches[k1] is Some
            && branches[k2] is Some implies branches[k1] != branches[k2] by {
        let p1 = cells[k1];
        let p2 = cells[k2];
        assert(p1 != p2);
        let t1 = spec_fill_cell(s, p1);
        let t2 = spec_fill_cell(s, p2);
        assert(t1.filled@ == s.filled@.update(p1, true));
        assert(t2.filled@ == s.filled@.update(p2, true));
        assert(t1.filled@[p1] == true);
        assert(t2.filled@[p1] == s.filled@[p1]);
    }
}

/// A single open cell is enough for the placer's branch list to be
/// non-empty.
pub proof fn lemma_branch_placer_nonempty(s: State, p: int)
    requires
        s.wf(),
        0 <= p < 81,
        p != s.dot@,
        !s.filled@[p],
    ensures
        spec_branch_placer(s).len() > 0,
{
    lemma_open_cells_upto(s, 81);
    lemma_branch_placer_entries(s, 81);
    assert(open_cells_upto(s, 81).contains(p));
}

impl PartialEq for State {
    /// Two states are equal when they mark the same cells filled and hold
    /// the dot at the same position.
    fn eq(&self, other: &State) -> (r: bool) {
        if self.dot.0 != other.dot.0 {
            return false;
        }
        let mut i: usize = 0;
        while i < 81
            invariant
                i <= 81,
                self.dot == other.dot,
                forall|j: int| 0 <= j < i ==> self.filled@[j] == other.filled@[j],
            decreases 81 - i,
        {
            if self.filled[i] != other.filled[i] {
                return false;
            }
            i += 1;
        }
        proof {
            assert(self.filled =~= other.filled);
        }
        true
    }
}

impl vstd::std_specs::cmp::PartialEqSpecImpl for State {
    open spec fn obeys_eq_spec() -> bool {
        true
    }

    open spec fn eq_spec(&self, other: &State) -> bool {
        self.filled == other.filled && self.dot == other.dot
    }
}

impl Eq for State {

}

/// At most the three cells `a`, `b` and `c` are filled in `s`.
pub open spec fn filled_among(s: State, a: int, b: int, c: int) -> bool {
    forall|q: int| 0 <= q < 81 && #[trigger] s.filled@[q] ==> q == a || q == b || q == c
}

impl State {
    /// A state is well formed when the dot is on the board and its own cell
    /// is not marked filled.
    pub open spec fn wf(self) -> bool {
        self.dot.wf() && !self.filled@[self.dot@]
    }

    /// Construct an empty board with the dot at the position provided.
    pub fn with_dot(pos: Pos) -> (r: State)
        requires
            pos.wf(),
        ensures
            r.dot == pos,
            forall|q: int| 0 <= q < 81 ==> !r.filled@[q],
            r.wf(),
    {
        State { filled: [false; 81], dot: pos }
    }

    /// Initialize a board with the dot near the middle and up to three
    /// random filled spaces. A drawn cell that collides with the dot or with
    /// an earlier draw is silently skipped, so the board may start with
    /// fewer filled cells than were drawn.
    pub fn new<R: RandSource>(rng: &mut R) -> (r: State)
        ensures
            r.wf(),
            r.dot@ == 40 || adjacent(40, r.dot@),
            exists|a: int, b: int, c: int| #[trigger] filled_among(r, a, b, c),
    {
        let mut s = State::with_dot(Pos::near_center(rng));
        let p1 = Pos::random(rng);
        let _ = s.fill(p1);
        let p2 = Pos::random(rng);
        let _ = s.fill(p2);
        let p3 = Pos::random(rng);
        let _ = s.fill(p3);
        proof {
            assert(filled_among(s, p1@, p2@, p3@));
        }
        s
    }

    /// Get the position of the dot.
    pub fn dot(self) -> (r: Pos)
        ensures
            r == self.dot,
    {
        self.dot
    }

    /// Move the dot to a different position. The target must not be a filled
    /// cell; whether it is a legal move (adjacency) is the caller's business.
    pub fn set_dot(&mut self, pos: Pos)
        requires
            old(self).wf(),
            pos.wf(),
            !old(self).filled@[pos@],
        ensures
            final(self).dot == pos,
            final(self).filled == old(self).filled,
            final(self).wf(),
    {
        self.dot = pos;
    }

    /// Check if a particular space on the board is filled.
    pub fn has_filled(self, pos: Pos) -> (r: bool)
        requires
            pos.wf(),
        ensures
            r == self.filled@[pos@],
    {
        self.filled[pos.0 as usize]
    }

    /// Fill a particular space on the board. Return `false` (and change
    /// nothing) if the space could not be filled, either because it is
    /// already filled or because it is occupied by the dot.
    pub fn fill(&mut self, pos: Pos) -> (r: bool)
        requires
            old(self).wf(),
            pos.wf(),
        ensures
            r == (pos@ != old(self).dot@ && !old(self).filled@[pos@]),
            r ==> *final(self) == spec_fill_cell(*old(self), pos@),
            !r ==> *final(self) == *old(self),
            final(self).dot == old(self).dot,
            final(self).wf(),
    {
        if pos.0 == self.dot.0 || self.has_filled(pos) {
            false
        } else {
            self.filled[pos.0 as usize] = true;
            proof {
                assert(self.filled =~= spec_fill_cell(*old(self), pos@).filled);
            }
            true
        }
    }

    /// One slot of [`State::branch_dot`]: the dot tries to move in direction
    /// `i`. Off the board means the dot escapes and wins (`Some(None)`); a
    /// filled neighbor is no move at all (`None`); otherwise the successor
    /// state with only the dot moved.
    fn branch_dot_at(self, i: u8) -> (r: Option<Option<State>>)
        requires
            self.wf(),
            i < 6,
        ensures
            r == spec_branch_dot_slot(self, i as int),
    {
        match self.dot.compute_neighbor(i) {
            None => Some(None),
            Some(n) => {
                if self.has_filled(n) {
                    None
                } else {
                    let mut new = self;
                    new.set_dot(n);
                    Some(Some(new))
                }
            },
        }
    }

    /// New versions of the state in which the dot has moved in each of the
    /// six directions: `Some(None)` where the dot walks off the board and
    /// wins, `None` where the neighbor is filled and the move is illegal,
    /// and `Some(Some(state))` for an ordinary move.
    pub fn branch_dot(self) -> (r: [Option<Option<State>>; 6])
        requires
            self.wf(),
        ensures
            forall|i: int| 0 <= i < 6 ==> #[trigger] r@[i] == spec_branch_dot_slot(self, i),
    {
        [
            self.branch_dot_at(0),
            self.branch_dot_at(1),
            self.branch_dot_at(2),
            self.branch_dot_at(3),
            self.branch_dot_at(4),
            self.branch_dot_at(5),
        ]
    }

    /// New versions of the state in which the placer has placed at each open
    /// cell, in row-major order: `None` where the placement completes the
    /// enclosure and wins, `Some(state)` for an ordinary placement. Cells
    /// that are filled or under the dot are skipped entirely.
    pub fn branch_placer(self) -> (r: Vec<Option<State>>)
        requires
            self.wf(),
        ensures
            r@ == spec_branch_placer(self),
    {
        let mut r: Vec<Option<State>> = Vec::new();
        let mut p: usize = 0;
        while p < 81
            invariant
                self.wf(),
                p <= 81,
                r@ == spec_branch_placer_upto(self, p as int),
            decreases 81 - p,
        {
            let pos = Pos(p as u8);
            let mut new = self;
            if new.fill(pos) {
                if new.placer_win() {
                    r.push(None);
                } else {
                    r.push(Some(new));
                }
            }
            p += 1;
        }
        r
    }

    /// Whether any cell other than the dot's is still open, so the placer
    /// has a legal placement left.
    pub fn has_open_cell(self) -> (r: bool)
        requires
            self.wf(),
        ensures
            r == exists|p: int| 0 <= p < 81 && p != self.dot@ && !(#[trigger] self.filled@[p]),
    {
        let mut p: usize = 0;
        while p < 81
            invariant
                p <= 81,
                self.wf(),
                forall|q: int| 0 <= q < p ==> q == self.dot@ || self.filled@[q],
            decreases 81 - p,
        {
            if p != self.dot.0 as usize && !self.filled[p] {
                return true;
            }
            p += 1;
        }
        false
    }

    /// Check if the placer has won: the dot is fully enclosed and immobile.
    pub fn placer_win(self) -> (r: bool)
        requires
            self.wf(),
        ensures
            r == spec_placer_win(self),
    {
        let nbrs = self.dot.neighbors();
        let mut i: usize = 0;
        while i < 6
            invariant
                self.wf(),
                i <= 6,
                forall|j: int| 0 <= j < 6 ==> #[trigger] nbrs@[j] == spec_neighbor(self.dot@, j),
                forall|j: int|
                    0 <= j < i ==> #[trigger] nbr_in_bounds(self.dot@, j)
                        && self.filled@[nbr_index(self.dot@, j)],
            decreases 6 - i,
        {
            match nbrs[i] {
                None => {
                    return false;
                },
                Some(n) => {
                    proof {
                        assert(nbrs@[i as int] == spec_neighbor(self.dot@, i as int));
                        assert(nbr_in_bounds(self.dot@, i as int));
                        lemma_nbr_index_valid(self.dot@, i as int);
                        assert(n@ == nbr_index(self.dot@, i as int));
                    }
                    if !self.has_filled(n) {
                        return false;
                    }
                    proof {
                        let ghost i0 = i as int;
                        assert(self.filled@[nbr_index(self.dot@, i0)]);
                        assert forall|j: int|
                            0 <= j < i0 + 1 implies #[trigger] nbr_in_bounds(self.dot@, j)
                            && self.filled@[nbr_index(self.dot@, j)] by {
                            if j == i0 {
                                assert(nbr_in_bounds(self.dot@, i0));
                                assert(self.filled@[nbr_index(self.dot@, i0)]);
                            }
                        }
                    }
                },
            }
            i += 1;
        }
        true
    }
}

} // verus!
