//! Breadth-first reachability: the minimum number of dot moves to reach any
//! open boundary cell, or the discovery that the placer has sealed the dot
//! in.

use vstd::prelude::*;

use crate::board::{spec_placer_win, State};
use crate::geometry::{
    adjacent, has_offboard_nbr, lemma_dist_bounds, lemma_dist_lipschitz, lemma_dist_step_down,
    lemma_nbr_index_valid, lemma_offboard_iff_dist_one, nbr_in_bounds, nbr_index, spec_dist_to_edge,
    spec_neighbor, Pos,
};

verus! {

/// The cells marked in a visited array.
pub open spec fn set_of(v: Seq<bool>) -> Set<int> {
    Set::new(|q: int| 0 <= q < 81 && v[q])
}

/// The cells named by a frontier vector.
pub open spec fn vec_set(v: Seq<u8>) -> Set<int> {
    Set::new(|q: int| exists|j: int| 0 <= j < v.len() && v[j] == q)
}

/// The set of cells the dot of `s` can occupy after at most `k` moves, each
/// move onto an unfilled neighbor cell.
pub open spec fn reach(s: State, k: nat) -> Set<int>
    decreases k,
{
    if k == 0 {
        Set::<int>::empty().insert(s.dot@)
    } else {
        reach(s, (k - 1) as nat).union(
            Set::new(
                |q: int|
                    0 <= q < 81 && !s.filled@[q] && exists|p: int|
                        reach(s, (k - 1) as nat).contains(p) && adjacent(p, q),
            ),
        )
    }
}

/// The dot of `s` can escape in at most `k` moves: after `k - 1` moves it
/// can stand on a cell with an off-board neighbor direction and walk off.
pub open spec fn spec_escapes_within(s: State, k: int) -> bool {
    k >= 1 && exists|p: int| reach(s, (k - 1) as nat).contains(p) && has_offboard_nbr(p)
}

/// Everything reachable is an open on-board cell, and the sets only grow
/// with the move budget.
pub proof fn lemma_reach_elems(s: State, k: nat)
    requires
        s.wf(),
    ensures
        forall|q: int| reach(s, k).contains(q) ==> 0 <= q < 81 && !s.filled@[q],
    decreases k,
{
    if k > 0 {
        lemma_reach_elems(s, (k - 1) as nat);
    }
}

/// A smaller move budget reaches no more cells.
pub proof fn lemma_reach_mono(s: State, k1: nat, k2: nat)
    requires
        k1 <= k2,
    ensures
        reach(s, k1).subset_of(reach(s, k2)),
    decreases k2,
{
    if k1 < k2 {
        lemma_reach_mono(s, k1, (k2 - 1) as nat);
    }
}

/// Once one step adds nothing, no further step ever adds anything.
pub proof fn lemma_reach_fixpoint(s: State, k: nat, m: nat)
    requires
        reach(s, k + 1) == reach(s, k),
        k <= m,
    ensures
        reach(s, m) == reach(s, k),
    decreases m,
{
    if k < m {
        lemma_reach_fixpoint(s, k, (m - 1) as nat);
        assert(reach(s, m) =~= reach(s, k + 1));
    }
}

/// Pushing onto a frontier vector inserts into the set it names.
pub proof fn lemma_vec_set_push(v: Seq<u8>, x: u8)
    ensures
        vec_set(v.push(x)) == vec_set(v).insert(x as int),
{
    assert forall|q: int| vec_set(v.push(x)).contains(q) implies vec_set(v).insert(
        x as int,
    ).contains(q) by {
        let j = choose|j: int| 0 <= j < v.push(x).len() && v.push(x)[j] == q;
        if j < v.len() {
            assert(v[j] == q);
        }
    }
    assert forall|q: int| vec_set(v).insert(x as int).contains(q) implies vec_set(
        v.push(x),
    ).contains(q) by {
        if q == x as int {
            assert(v.push(x)[v.len() as int] == x);
        } else {
            let j = choose|j: int| 0 <= j < v.len() && v[j] == q;
            assert(v.push(x)[j] == q);
        }
    }
    assert(vec_set(v.push(x)) =~= vec_set(v).insert(x as int));
}

/// Marking a cell inserts it into the visited set.
pub proof fn lemma_set_of_update(v: Seq<bool>, i: int)
    requires
        0 <= i < 81,
        v.len() == 81,
    ensures
        set_of(v.update(i, true)) == set_of(v).insert(i),
{
    assert(set_of(v.update(i, true)) =~= set_of(v).insert(i));
}

/// The visited set is a finite set of at most 81 cells.
pub proof fn lemma_set_of_card(v: Seq<bool>)
    ensures
        set_of(v).finite(),
        set_of(v).len() <= 81,
{
    let range = vstd::set_lib::set_int_range(0, 81);
    vstd::set_lib::lemma_int_range(0, 81);
    assert(set_of(v).subset_of(range));
    vstd::set_lib::lemma_len_subset(set_of(v), range);
}

/// One more move reaches every open cell adjacent to a reached cell.
pub proof fn lemma_reach_step(s: State, k: nat, p: int, q: int)
    requires
        reach(s, k).contains(p),
        adjacent(p, q),
        0 <= q < 81,
        !s.filled@[q],
    ensures
        reach(s, (k + 1) as nat).contains(q),
{
    assert(reach(s, (k + 1) as nat) == reach(s, k).union(
        Set::new(
            |q2: int|
                0 <= q2 < 81 && !s.filled@[q2] && exists|p2: int|
                    reach(s, k).contains(p2) && adjacent(p2, q2),
        ),
    ));
}

/// The cells whose breadth-first distance from the dot is exactly `k`.
pub open spec fn layer(s: State, k: nat) -> Set<int> {
    if k == 0 {
        reach(s, 0)
    } else {
        reach(s, k).difference(reach(s, (k - 1) as nat))
    }
}

/// The least number of moves within which the dot of `s` can escape, if any
/// budget at all suffices.
#[verifier::opaque]
pub open spec fn spec_min_steps(s: State) -> Option<int> {
    if exists|k: int| spec_escapes_within(s, k) {
        Some(
            choose|d: int|
                spec_escapes_within(s, d) && forall|k: int| k < d ==> !spec_escapes_within(s, k),
        )
    } else {
        None
    }
}

/// A budget that suffices while no smaller one does is the least budget.
pub proof fn lemma_min_steps_some(s: State, d: int)
    requires
        spec_escapes_within(s, d),
        forall|k: int| k < d ==> !spec_escapes_within(s, k),
    ensures
        spec_min_steps(s) == Some(d),
{
    reveal(spec_min_steps);
    let d2 = choose|d2: int|
        spec_escapes_within(s, d2) && forall|k: int| k < d2 ==> !spec_escapes_within(s, k);
    assert(spec_escapes_within(s, d) && forall|k: int| k < d ==> !spec_escapes_within(s, k));
    if d2 < d {
        assert(!spec_escapes_within(s, d2));
    }
    if d < d2 {
        assert(!spec_escapes_within(s, d));
    }
}

/// No sequence of moves outruns the straight-line distance: after `k` moves
/// the dot is still at least `dist - k` from the edge.
proof fn lemma_reach_dist_lb(s: State, k: nat)
    requires
        s.wf(),
    ensures
        forall|p: int|
            #[trigger] reach(s, k).contains(p) ==> spec_dist_to_edge(p) >= spec_dist_to_edge(
                s.dot@,
            ) - k,
    decreases k,
{
    lemma_reach_elems(s, k);
    if k > 0 {
        lemma_reach_dist_lb(s, (k - 1) as nat);
        lemma_reach_elems(s, (k - 1) as nat);
        assert forall|p: int| #[trigger] reach(s, k).contains(p) implies spec_dist_to_edge(p)
            >= spec_dist_to_edge(s.dot@) - k by {
            if !reach(s, (k - 1) as nat).contains(p) {
                let p2 = choose|p2: int|
                    reach(s, (k - 1) as nat).contains(p2) && adjacent(p2, p);
                let i = choose|i: int|
                    0 <= i < 6 && nbr_in_bounds(p2, i) && #[trigger] nbr_index(p2, i) == p;
                lemma_dist_lipschitz(p2, i);
            }
        }
    }
}

/// On an empty board the dot can walk straight at the nearest edge: after
/// `k` moves some reachable cell is exactly `dist - k` from the edge.
proof fn lemma_empty_reach_dist(s: State, k: nat)
    requires
        s.wf(),
        forall|q: int| 0 <= q < 81 ==> !(#[trigger] s.filled@[q]),
        k <= spec_dist_to_edge(s.dot@) - 1,
    ensures
        exists|p: int|
            #[trigger] reach(s, k).contains(p) && spec_dist_to_edge(p) == spec_dist_to_edge(
                s.dot@,
            ) - k,
    decreases k,
{
    if k == 0 {
        assert(reach(s, 0).contains(s.dot@));
    } else {
        lemma_empty_reach_dist(s, (k - 1) as nat);
        let p = choose|p: int|
            #[trigger] reach(s, (k - 1) as nat).contains(p) && spec_dist_to_edge(p)
                == spec_dist_to_edge(s.dot@) - (k - 1);
        lemma_reach_elems(s, (k - 1) as nat);
        lemma_dist_step_down(p);
        let i = choose|i: int|
            0 <= i < 6 && #[trigger] nbr_in_bounds(p, i) && spec_dist_to_edge(nbr_index(p, i))
                == spec_dist_to_edge(p) - 1;
        lemma_nbr_index_valid(p, i);
        let q = nbr_index(p, i);
        assert(adjacent(p, q));
        lemma_reach_step(s, (k - 1) as nat, p, q);
        assert(reach(s, k).contains(q));
    }
}

/// Law: on an empty board the breadth-first escape distance equals the
/// straight-line edge distance of the dot's position.
pub proof fn lemma_empty_board_min_steps(s: State)
    requires
        s.wf(),
        forall|q: int| 0 <= q < 81 ==> !(#[trigger] s.filled@[q]),
    ensures
        spec_min_steps(s) == Some(spec_dist_to_edge(s.dot@)),
{
    let d0 = spec_dist_to_edge(s.dot@);
    lemma_dist_bounds(s.dot@);
    lemma_empty_reach_dist(s, (d0 - 1) as nat);
    let p = choose|p: int|
        #[trigger] reach(s, (d0 - 1) as nat).contains(p) && spec_dist_to_edge(p)
            == spec_dist_to_edge(s.dot@) - (d0 - 1);
    lemma_reach_elems(s, (d0 - 1) as nat);
    lemma_offboard_iff_dist_one(p);
    assert(spec_escapes_within(s, d0));
    assert forall|k: int| k < d0 implies !spec_escapes_within(s, k) by {
        if spec_escapes_within(s, k) {
            let pb = choose|pb: int|
                reach(s, (k - 1) as nat).contains(pb) && has_offboard_nbr(pb);
            lemma_reach_elems(s, (k - 1) as nat);
            lemma_reach_dist_lb(s, (k - 1) as nat);
            lemma_offboard_iff_dist_one(pb);
        }
    }
    lemma_min_steps_some(s, d0);
}

/// With every neighbor of the dot present and filled, the dot cannot move
/// at all.
proof fn lemma_sealed_reach(s: State, k: nat)
    requires
        s.wf(),
        spec_placer_win(s),
    ensures
        reach(s, k) == reach(s, 0),
    decreases k,
{
    if k > 0 {
        lemma_sealed_reach(s, (k - 1) as nat);
        assert forall|q: int| reach(s, k).contains(q) implies reach(s, 0).contains(q) by {
            if !reach(s, (k - 1) as nat).contains(q) {
                let p = choose|p: int|
                    reach(s, (k - 1) as nat).contains(p) && adjacent(p, q);
                assert(p == s.dot@);
                let i = choose|i: int|
                    0 <= i < 6 && nbr_in_bounds(p, i) && #[trigger] nbr_index(p, i) == q;
                assert(s.filled@[q]);
            }
        }
        lemma_reach_mono(s, 0, k);
        assert(reach(s, k) =~= reach(s, 0));
    }
}

/// Law: surrounding the dot completely, every one of its six neighbors
/// present and filled, leaves it no path to the edge.
pub proof fn lemma_sealed_no_path(s: State)
    requires
        s.wf(),
        spec_placer_win(s),
    ensures
        spec_min_steps(s) is None,
{
    assert forall|k: int| !(#[trigger] spec_escapes_within(s, k)) by {
        if spec_escapes_within(s, k) {
            let p = choose|p: int|
                reach(s, (k - 1) as nat).contains(p) && has_offboard_nbr(p);
            lemma_sealed_reach(s, (k - 1) as nat);
            assert(p == s.dot@);
            let i = choose|i: int| 0 <= i < 6 && !(#[trigger] nbr_in_bounds(p, i));
        }
    }
    reveal(spec_min_steps);
    assert(!exists|k: int| spec_escapes_within(s, k));
}

impl State {
    /// The number of moves the dot would need to pathfind to the edge from
    /// its current position through unfilled cells, by breadth-first search:
    /// the least `d` such that the dot can escape within `d` moves (a dot
    /// already on the outer ring yields 1), or `None` if no budget at all
    /// suffices because the filled cells seal the dot in.
    #[verifier::loop_isolation(false)]
    pub fn dist_to_reach_edge(self) -> (r: Option<u8>)
        requires
            self.wf(),
        ensures
            r matches Some(d) ==> 1 <= d <= 81 && spec_escapes_within(self, d as int) && forall|
                k: int,
            |
                k < d ==> !spec_escapes_within(self, k),
            r is None ==> forall|k: int| !(#[trigger] spec_escapes_within(self, k)),
    {
        let mut visited: [bool; 81] = [false; 81];
        proof {
            let va = vstd::array::spec_array_fill_for_copy_type::<bool, 81>(false);
            assert(visited == va);
            assert(forall|q: int| 0 <= q < 81 ==> !va@[q]);
            assert(forall|q: int| 0 <= q < 81 ==> !visited@[q]);
        }
        visited[self.dot.0 as usize] = true;
        let mut frontier: Vec<u8> = Vec::new();
        frontier.push(self.dot.0);
        let mut steps: u8 = 0;
        proof {
            assert(set_of(visited@) =~= reach(self, 0)) by {
                assert(visited@[self.dot@]);
                assert forall|q: int| set_of(visited@).contains(q) implies reach(
                    self,
                    0,
                ).contains(q) by {
                    assert(visited@[q]);
                    assert(q == self.dot@);
                }
            }
            assert(vec_set(frontier@) =~= layer(self, 0)) by {
                assert forall|q: int| vec_set(frontier@).contains(q) implies layer(
                    self,
                    0,
                ).contains(q) by {
                    let j = choose|j: int| 0 <= j < frontier@.len() && frontier@[j] == q;
                    assert(q == self.dot@);
                }
                assert(frontier@[0] == self.dot.0);
            }
            assert(set_of(visited@).len() >= 1) by {
                lemma_set_of_card(visited@);
                assert(set_of(visited@).contains(self.dot@));
                assert(set_of(visited@).remove(self.dot@).len() == set_of(visited@).len() - 1);
            }
            lemma_set_of_card(visited@);
        }
        loop
            invariant
                steps <= 81,
                set_of(visited@) == reach(self, steps as nat),
                vec_set(frontier@) == layer(self, steps as nat),
                forall|j: int| 0 <= j < frontier@.len() ==> frontier@[j] < 81,
                steps >= 1 ==> forall|p: int|
                    reach(self, (steps - 1) as nat).contains(p) ==> !has_offboard_nbr(p),
                frontier@.len() > 0 ==> set_of(visited@).len() >= steps + 1,
            decreases 81 - set_of(visited@).len(), frontier@.len(),
        {
            proof {
                lemma_set_of_card(visited@);
            }
            if frontier.len() == 0 {
                proof {
                    assert(steps >= 1) by {
                        if steps == 0 {
                            assert(layer(self, 0).contains(self.dot@));
                            let j = choose|j: int|
                                0 <= j < frontier@.len() && frontier@[j] == self.dot@;
                        }
                    }
                    assert(reach(self, (steps - 1) as nat + 1) =~= reach(
                        self,
                        (steps - 1) as nat,
                    )) by {
                        lemma_reach_mono(self, (steps - 1) as nat, steps as nat);
                        assert forall|q: int|
                            reach(self, steps as nat).contains(q) implies reach(
                            self,
                            (steps - 1) as nat,
                        ).contains(q) by {
                            if !reach(self, (steps - 1) as nat).contains(q) {
                                assert(layer(self, steps as nat).contains(q));
                                let j = choose|j: int|
                                    0 <= j < frontier@.len() && frontier@[j] == q;
                            }
                        }
                    }
                    assert forall|k: int| !(#[trigger] spec_escapes_within(self, k)) by {
                        if spec_escapes_within(self, k) {
                            let p = choose|p: int|
                                reach(self, (k - 1) as nat).contains(p) && has_offboard_nbr(p);
                            if (k - 1) as nat <= (steps - 1) as nat {
                                lemma_reach_mono(self, (k - 1) as nat, (steps - 1) as nat);
                            } else {
                                lemma_reach_fixpoint(
                                    self,
                                    (steps - 1) as nat,
                                    (k - 1) as nat,
                                );
                            }
                            assert(reach(self, (steps - 1) as nat).contains(p));
                        }
                    }
                }
                return None;
            }
            let ghost v0 = set_of(visited@);
            proof {
                assert(v0.len() >= steps + 1);
                assert(v0 == reach(self, steps as nat));
            }
            let mut next: Vec<u8> = Vec::new();
            let mut jf: usize = 0;
            while jf < frontier.len()
                invariant
                    jf <= frontier@.len(),
                    set_of(visited@) == reach(self, steps as nat).union(vec_set(next@)),
                    forall|q: int|
                        vec_set(next@).contains(q) ==> 0 <= q < 81 && reach(
                            self,
                            (steps + 1) as nat,
                        ).contains(q) && !reach(self, steps as nat).contains(q),
                    forall|j: int| 0 <= j < next@.len() ==> next@[j] < 81,
                    forall|jj: int, q: int|
                        0 <= jj < jf && #[trigger] adjacent(frontier@[jj] as int, q) && 0 <= q
                            < 81 && !self.filled@[q] ==> set_of(visited@).contains(q),
                    forall|jj: int|
                        0 <= jj < jf ==> !has_offboard_nbr(#[trigger] frontier@[jj] as int),
                    next@.len() > 0 ==> set_of(visited@).len() >= v0.len() + 1,
                    set_of(visited@).finite(),
                decreases frontier@.len() - jf,
            {
                let p: u8 = frontier[jf];
                proof {
                    assert(vec_set(frontier@).contains(p as int));
                    assert(reach(self, steps as nat).contains(p as int)) by {
                        if steps > 0 {
                            assert(layer(self, steps as nat).contains(p as int));
                        }
                    }
                    lemma_reach_elems(self, steps as nat);
                }
                let pp = Pos(p);
                let nbrs = pp.neighbors();
                let mut di: usize = 0;
                while di < 6
                    invariant
                        di <= 6,
                        set_of(visited@) == reach(self, steps as nat).union(vec_set(next@)),
                        forall|q: int|
                            vec_set(next@).contains(q) ==> 0 <= q < 81 && reach(
                                self,
                                (steps + 1) as nat,
                            ).contains(q) && !reach(self, steps as nat).contains(q),
                        forall|j: int| 0 <= j < next@.len() ==> next@[j] < 81,
                        forall|jj: int, q: int|
                            0 <= jj < jf && #[trigger] adjacent(frontier@[jj] as int, q) && 0 <= q
                                < 81 && !self.filled@[q] ==> set_of(visited@).contains(q),
                        forall|i: int| 0 <= i < di ==> #[trigger] nbr_in_bounds(p as int, i),
                        forall|i: int|
                            0 <= i < di && !self.filled@[#[trigger] nbr_index(p as int, i)]
                                ==> set_of(visited@).contains(nbr_index(p as int, i)),
                        next@.len() > 0 ==> set_of(visited@).len() >= v0.len() + 1,
                        set_of(visited@).finite(),
                    decreases 6 - di,
                {
                    match nbrs[di] {
                        None => {
                            proof {
                                lemma_set_of_card(visited@);
                                assert(v0.subset_of(set_of(visited@)));
                                vstd::set_lib::lemma_len_subset(v0, set_of(visited@));
                                assert(steps as int + 1 <= 81);
                                assert(!nbr_in_bounds(p as int, di as int));
                                assert(has_offboard_nbr(p as int));
                                assert(spec_escapes_within(self, steps as int + 1));
                                assert forall|k: int|
                                    k < steps as int + 1 implies !spec_escapes_within(
                                    self,
                                    k,
                                ) by {
                                    if spec_escapes_within(self, k) {
                                        let pb = choose|pb: int|
                                            reach(self, (k - 1) as nat).contains(pb)
                                                && has_offboard_nbr(pb);
                                        lemma_reach_mono(
                                            self,
                                            (k - 1) as nat,
                                            (steps - 1) as nat,
                                        );
                                        assert(reach(self, (steps - 1) as nat).contains(pb));
                                    }
                                }
                            }
                            return Some(steps + 1);
                        },
                        Some(nq) => {
                            proof {
                                assert(nbrs@[di as int] == spec_neighbor(p as int, di as int));
                                lemma_nbr_index_valid(p as int, di as int);
                                assert(nq@ == nbr_index(p as int, di as int));
                            }
                            if !self.has_filled(nq) && !visited[nq.0 as usize] {
                                let ghost vis_before = visited@;
                                let ghost next_before = next@;
                                visited[nq.0 as usize] = true;
                                next.push(nq.0);
                                proof {
                                    let q = nq@;
                                    lemma_set_of_update(vis_before, q);
                                    lemma_vec_set_push(next_before, nq.0);
                                    assert(adjacent(p as int, q)) by {
                                        assert(nbr_in_bounds(p as int, di as int)
                                            && nbr_index(p as int, di as int) == q);
                                    }
                                    lemma_reach_step(self, steps as nat, p as int, q);
                                    assert(!reach(self, steps as nat).contains(q)) by {
                                        assert(!set_of(vis_before).contains(q));
                                    }
                                    assert(set_of(visited@) =~= reach(
                                        self,
                                        steps as nat,
                                    ).union(vec_set(next@)));
                                    assert(set_of(visited@).len() >= v0.len() + 1) by {
                                        assert(set_of(visited@) == set_of(vis_before).insert(
                                            q,
                                        ));
                                        assert(v0.subset_of(set_of(vis_before)));
                                        lemma_set_of_card(vis_before);
                                        vstd::set_lib::lemma_len_subset(
                                            v0,
                                            set_of(vis_before),
                                        );
                                        assert(!set_of(vis_before).contains(q));
                                        assert(set_of(visited@).len() == set_of(
                                            vis_before,
                                        ).len() + 1);
                                    }
                                }
                            }
                            proof {
                                let q = nbr_index(p as int, di as int);
                                assert(!self.filled@[q] ==> set_of(visited@).contains(q));
                            }
                        },
                    }
                    di += 1;
                }
                proof {
                    assert(!has_offboard_nbr(p as int)) by {
                        assert(forall|i: int| 0 <= i < 6 ==> nbr_in_bounds(p as int, i));
                    }
                    assert forall|q: int|
                        #[trigger] adjacent(p as int, q) && 0 <= q < 81 && !self.filled@[q]
                            implies set_of(visited@).contains(q) by {
                        let i = choose|i: int|
                            0 <= i < 6 && nbr_in_bounds(p as int, i) && #[trigger] nbr_index(
                                p as int,
                                i,
                            ) == q;
                    }
                }
                jf += 1;
            }
            proof {
                // the round computed exactly the next reachability level
                assert(set_of(visited@) =~= reach(self, (steps + 1) as nat)) by {
                    lemma_reach_mono(self, steps as nat, (steps + 1) as nat);
                    assert forall|q: int|
                        reach(self, (steps + 1) as nat).contains(q) implies set_of(
                        visited@,
                    ).contains(q) by {
                        if !reach(self, steps as nat).contains(q) {
                            assert(0 <= q < 81 && !self.filled@[q] && exists|p2: int|
                                reach(self, steps as nat).contains(p2) && adjacent(p2, q));
                            let p2 = choose|p2: int|
                                reach(self, steps as nat).contains(p2) && adjacent(p2, q);
                            assert(layer(self, steps as nat).contains(p2)) by {
                                if steps > 0 && reach(self, (steps - 1) as nat).contains(p2) {
                                    assert(reach(self, steps as nat).contains(q)) by {
                                        lemma_reach_step(
                                            self,
                                            (steps - 1) as nat,
                                            p2,
                                            q,
                                        );
                                    }
                                }
                            }
                            assert(vec_set(frontier@).contains(p2));
                            let jj = choose|jj: int|
                                0 <= jj < frontier@.len() && frontier@[jj] == p2;
                            assert(adjacent(frontier@[jj] as int, q));
                        }
                    }
                }
                assert(vec_set(next@) =~= layer(self, (steps + 1) as nat));
                assert forall|pc: int| reach(self, steps as nat).contains(pc)
                    implies !has_offboard_nbr(pc) by {
                    if steps > 0 && reach(self, (steps - 1) as nat).contains(pc) {
                    } else {
                        assert(layer(self, steps as nat).contains(pc));
                        assert(vec_set(frontier@).contains(pc));
                        let jj = choose|jj: int|
                            0 <= jj < frontier@.len() && frontier@[jj] == pc;
                    }
                }
                lemma_set_of_card(visited@);
                if next@.len() > 0 {
                    assert(vec_set(next@).contains(next@[0] as int));
                    assert(set_of(visited@).len() >= v0.len() + 1);
                    assert(set_of(visited@).len() >= steps + 2);
                    assert(steps + 1 <= 80);
                } else {
                    assert(vec_set(next@) =~= Set::<int>::empty()) by {
                        assert forall|q: int| !vec_set(next@).contains(q) by {
                            if vec_set(next@).contains(q) {
                                let j = choose|j: int|
                                    0 <= j < next@.len() && next@[j] == q;
                            }
                        }
                    }
                    assert(set_of(visited@) =~= reach(self, steps as nat));
                    assert(set_of(visited@) == v0);
                    assert(set_of(visited@).len() == v0.len());
                    assert(steps + 1 <= 81);
                }
            }
            steps += 1;
            frontier = next;
        }
    }
}

} // verus!
