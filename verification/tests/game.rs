use ai::board::State;
use ai::geometry::Pos;
use ai::outcome::Outcome;
use ai::rng::{RandSource, ReplaySource};
use ai::strategy::{
    DotStrategy, DotUtilityMax, DumbPathfind, PlacerPredictive, PlacerStrategy, PlacerUtilityMax,
    SmartPathfind,
};
use ai::utility::{approx_utility_dot, approx_utility_placer};

/// An empty board with the dot at the given coordinates.
fn board_with_dot(x: u8, y: u8) -> State {
    State::with_dot(Pos::from_xy(x, y))
}

/// A 9x9 state with the dot at the center and all six of its neighbors
/// filled.
fn enclosed_center() -> State {
    let mut s = board_with_dot(4, 4);
    for n in s.dot().neighbors() {
        let p = n.expect("center neighbors are all on the board");
        assert!(s.fill(p));
    }
    s
}

fn count_present(ns: &[Option<Pos>; 6]) -> usize {
    ns.iter().filter(|n| n.is_some()).count()
}

#[test]
fn neighbors_present_counts() {
    // corner, edge and interior cells have 2 or 3, 4 or 5, and 6 in-board
    // neighbors respectively on the staggered grid
    assert_eq!(count_present(&Pos::from_xy(0, 0).neighbors()), 2);
    assert_eq!(count_present(&Pos::from_xy(8, 8).neighbors()), 3);
    assert_eq!(count_present(&Pos::from_xy(4, 0).neighbors()), 4);
    assert_eq!(count_present(&Pos::from_xy(0, 4).neighbors()), 3);
    assert_eq!(count_present(&Pos::from_xy(0, 3).neighbors()), 5);
    assert_eq!(count_present(&Pos::from_xy(4, 4).neighbors()), 6);
    assert_eq!(count_present(&Pos::from_xy(1, 1).neighbors()), 6);
}

#[test]
fn neighbors_symmetric_everywhere() {
    for y in 0..9u8 {
        for x in 0..9u8 {
            let p = Pos::from_xy(x, y);
            for n in p.neighbors() {
                if let Some(q) = n {
                    let back = q.neighbors();
                    assert!(
                        back.iter().any(|b| *b == Some(p)),
                        "neighbor of ({}, {}) does not point back",
                        x,
                        y
                    );
                }
            }
        }
    }
}

#[test]
fn fill_is_idempotent_false_on_repeat() {
    let mut s = board_with_dot(4, 4);
    let p = Pos::from_xy(2, 2);
    assert!(s.fill(p));
    assert!(!s.fill(p));
    assert!(s.has_filled(p));
}

#[test]
fn fill_under_dot_always_fails() {
    let mut s = board_with_dot(3, 3);
    let dot = s.dot();
    assert!(!s.fill(dot));
    assert!(!s.has_filled(dot));
    let mut t = enclosed_center();
    assert!(!t.fill(t.dot()));
}

#[test]
fn min_steps_equals_straight_line_distance_on_empty_board() {
    for y in 0..9u8 {
        for x in 0..9u8 {
            let s = board_with_dot(x, y);
            assert_eq!(s.dist_to_reach_edge(), Some(s.dot().dist_to_edge()));
        }
    }
}

#[test]
fn min_steps_from_center_is_five() {
    assert_eq!(board_with_dot(4, 4).dist_to_reach_edge(), Some(5));
}

#[test]
fn surrounding_the_dot_seals_it_in() {
    let s = enclosed_center();
    assert_eq!(s.dist_to_reach_edge(), None);
}

#[test]
fn outcome_ordering_ranks_variants() {
    for x in [0u8, 1, 3, 200] {
        for y in [0u8, 1, 3, 200] {
            assert!(Outcome::Lose(x).le(Outcome::Play(y)));
            assert!(!Outcome::Play(y).le(Outcome::Lose(x)));
            assert!(Outcome::Play(x).le(Outcome::Win(y)));
            assert!(!Outcome::Win(y).le(Outcome::Play(x)));
            assert!(Outcome::Lose(x).le(Outcome::Win(y)));
        }
    }
}

#[test]
fn outcome_ordering_within_variants() {
    // winning sooner is strictly better
    assert!(Outcome::Win(3).le(Outcome::Win(1)));
    assert!(!Outcome::Win(1).le(Outcome::Win(3)));
    // being blocked later is strictly better: Lose(3) > Lose(1)
    assert!(Outcome::Lose(1).le(Outcome::Lose(3)));
    assert!(!Outcome::Lose(3).le(Outcome::Lose(1)));
    // a farther dot at the horizon is better for the placer
    assert!(Outcome::Play(2).le(Outcome::Play(4)));
    assert!(!Outcome::Play(4).le(Outcome::Play(2)));
}

#[test]
fn outcome_inc_moves_results_one_turn_out() {
    assert_eq!(Outcome::Lose(0).inc(), Outcome::Lose(1));
    assert_eq!(Outcome::Play(3).inc(), Outcome::Play(3));
    assert_eq!(Outcome::Win(0).inc(), Outcome::Win(1));
}

#[test]
fn branch_placer_never_fills_the_dot_cell() {
    let mut s = board_with_dot(4, 4);
    assert!(s.fill(Pos::from_xy(1, 1)));
    assert!(s.fill(Pos::from_xy(7, 2)));
    let dot = s.dot();
    for b in s.branch_placer() {
        if let Some(t) = b {
            assert!(!t.has_filled(dot));
            assert_eq!(t.dot(), dot);
        }
    }
}

#[test]
fn branch_placer_yields_distinct_states() {
    let mut s = board_with_dot(2, 3);
    assert!(s.fill(Pos::from_xy(5, 5)));
    let succs: Vec<State> = s.branch_placer().into_iter().flatten().collect();
    // one placement per open cell: 81 minus the dot minus one filled cell
    assert_eq!(succs.len(), 79);
    for i in 0..succs.len() {
        for j in 0..succs.len() {
            if i != j {
                assert!(succs[i] != succs[j]);
            }
        }
    }
}

#[test]
fn enclosed_dot_means_placer_has_won() {
    let s = enclosed_center();
    assert!(s.placer_win());
    // every dot branch is a blocked move: no successor, no escape
    for b in s.branch_dot() {
        assert!(b.is_none());
    }
}

#[test]
fn open_board_is_not_won() {
    assert!(!board_with_dot(4, 4).placer_win());
    // a dot on the edge is never enclosed: some neighbor is off the board
    assert!(!enclosed_at_edge_is_win());
}

fn enclosed_at_edge_is_win() -> bool {
    let mut s = board_with_dot(0, 0);
    for n in s.dot().neighbors().into_iter().flatten() {
        s.fill(n);
    }
    s.placer_win()
}

#[test]
fn corner_dot_reaches_the_edge_in_one_step() {
    // convention: cells on the outer ring report distance 1
    assert_eq!(board_with_dot(0, 0).dist_to_reach_edge(), Some(1));
    assert_eq!(board_with_dot(8, 0).dist_to_reach_edge(), Some(1));
    assert_eq!(board_with_dot(0, 0).dot().dist_to_edge(), 1);
}

#[test]
fn dot_branches_classify_edge_and_blocked_moves() {
    let s = board_with_dot(0, 0);
    let branches = s.branch_dot();
    // off-board directions are dot wins, open neighbors ordinary successors
    let mut wins = 0;
    let mut moves = 0;
    for b in branches {
        match b {
            Some(None) => wins += 1,
            Some(Some(t)) => {
                moves += 1;
                assert!(!t.has_filled(t.dot()));
            }
            None => {}
        }
    }
    assert_eq!(wins, 4);
    assert_eq!(moves, 2);
}

#[test]
fn dumb_pathfind_picks_smallest_straight_line_distance() {
    let mut d = DumbPathfind;
    let choices = [board_with_dot(4, 4), board_with_dot(1, 4), board_with_dot(0, 4)];
    assert_eq!(d.preferred_state(&choices), 2);
    // first of equally good candidates wins
    let ties = [board_with_dot(0, 4), board_with_dot(4, 0)];
    assert_eq!(d.preferred_state(&ties), 0);
}

#[test]
fn smart_pathfind_prefers_reachable_exits() {
    let mut d = SmartPathfind;
    // a sealed-in candidate sorts worse than any reachable distance
    let sealed = enclosed_center();
    let open = board_with_dot(4, 4);
    assert_eq!(d.preferred_state(&[sealed, open]), 1);
    assert_eq!(d.preferred_state(&[open, sealed]), 0);
    let nearer = board_with_dot(1, 4);
    assert_eq!(d.preferred_state(&[open, nearer]), 1);
}

#[test]
fn dot_play_escapes_from_the_corner() {
    let mut d = DumbPathfind;
    assert_eq!(d.play(board_with_dot(0, 0)), None);
}

#[test]
fn dot_play_reports_no_move_when_enclosed() {
    // a fully enclosed dot is the placer-win terminal: a typed outcome,
    // not an error
    let mut d = DumbPathfind;
    assert_eq!(d.play(enclosed_center()), None);
    let mut s = SmartPathfind;
    assert_eq!(s.play(enclosed_center()), None);
}

#[test]
fn placer_play_reports_no_move_on_a_full_board() {
    // every cell but the dot's is filled: no legal placement is left, and
    // play must report that defensively as "no move"
    let mut s = board_with_dot(0, 0);
    for y in 0..9u8 {
        for x in 0..9u8 {
            if (x, y) != (0, 0) {
                assert!(s.fill(Pos::from_xy(x, y)));
            }
        }
    }
    let mut strat = PlacerPredictive::new(ReplaySource::new(vec![9, 8, 7]), SmartPathfind);
    assert_eq!(strat.play(s), None);
    let mut greedy = PlacerUtilityMax;
    assert_eq!(greedy.play(s), None);
}

#[test]
fn dot_play_moves_towards_the_edge() {
    let mut d = DumbPathfind;
    let s = board_with_dot(4, 4);
    let t = d.play(s).expect("an interior dot has no winning move yet");
    assert_eq!(t.dot().dist_to_edge(), 4);
    assert!(!t.has_filled(t.dot()));
}

#[test]
fn placer_play_takes_a_winning_placement() {
    let mut s = board_with_dot(4, 4);
    let nbrs = s.dot().neighbors();
    for n in nbrs.iter().take(5) {
        assert!(s.fill(n.unwrap()));
    }
    // one neighbor left open: any sensible placer strategy may place there,
    // and play must report the win as "no move" via None
    let mut strat = PlacerPredictive::new(ReplaySource::new(vec![7, 3, 1]), SmartPathfind);
    assert_eq!(strat.play(s), None);
}

#[test]
fn predictive_play_reproduces_with_a_replayed_sequence() {
    // a small pocket keeps the depth-bounded search cheap: every cell is
    // filled except the dot's and four cells around it
    let open = [(4u8, 4u8), (3, 4), (5, 4), (4, 5), (2, 4)];
    let mut s = board_with_dot(4, 4);
    for y in 0..9u8 {
        for x in 0..9u8 {
            if !open.contains(&(x, y)) {
                assert!(s.fill(Pos::from_xy(x, y)));
            }
        }
    }
    let seq = vec![13, 250, 7, 0, 99, 42, 181, 5];
    let mut first = PlacerPredictive::new(ReplaySource::new(seq.clone()), SmartPathfind);
    let mut second = PlacerPredictive::new(ReplaySource::new(seq), SmartPathfind);
    let a = first.play(s);
    let b = second.play(s);
    assert!(a.is_some());
    assert_eq!(a, b);
}

#[test]
fn replay_source_cycles_its_bytes() {
    let mut r = ReplaySource::new(vec![5, 200]);
    assert_eq!(r.byte(), 5);
    assert_eq!(r.byte(), 200);
    assert_eq!(r.byte(), 5);
    assert_eq!(r.below(10), 0);
    assert_eq!(r.below(10), 5);
    let mut empty = ReplaySource::new(vec![]);
    assert_eq!(empty.byte(), 0);
    assert_eq!(empty.below(3), 0);
}

#[test]
fn new_board_starts_near_the_center_with_few_filled_cells() {
    let mut rng = ReplaySource::new(vec![6, 0, 40, 80]);
    let s = State::new(&mut rng);
    let [x, y] = s.dot().xy();
    assert!((3..=5).contains(&x) && (3..=5).contains(&y));
    let mut filled = 0;
    for yy in 0..9u8 {
        for xx in 0..9u8 {
            if s.has_filled(Pos::from_xy(xx, yy)) {
                filled += 1;
            }
        }
    }
    assert!(filled <= 3);
    assert!(!s.has_filled(s.dot()));
}

#[test]
fn display_draws_every_cell() {
    let mut s = board_with_dot(0, 0);
    assert!(s.fill(Pos::from_xy(1, 0)));
    let text = s.display();
    let mut expected = String::new();
    for _ in 0..18 {
        expected.push('=');
    }
    expected.push('\n');
    for y in 0..9u8 {
        if y % 2 == 1 {
            expected.push(' ');
        }
        for x in 0..9u8 {
            expected.push(if (x, y) == (0, 0) {
                '@'
            } else if (x, y) == (1, 0) {
                'o'
            } else {
                '\u{00b7}'
            });
            expected.push(if x == 8 { '\n' } else { ' ' });
        }
    }
    assert_eq!(text, expected);
}

#[test]
fn utility_recognises_terminal_states() {
    // an open edge for the dot is the forced-loss sentinel for the placer
    assert_eq!(approx_utility_placer(board_with_dot(0, 0), 3), -1000);
    // an enclosed dot is the forced-win sentinel
    assert_eq!(approx_utility_placer(enclosed_center(), 3), 1000);
    // at depth zero the score is the dot's straight-line edge distance
    assert_eq!(approx_utility_placer(board_with_dot(4, 4), 0), 5);
    assert_eq!(approx_utility_dot(board_with_dot(4, 4), 0), -5);
}

#[test]
fn utility_sees_an_imminent_enclosure() {
    let mut s = board_with_dot(4, 4);
    let nbrs = s.dot().neighbors();
    for n in nbrs.iter().take(5) {
        assert!(s.fill(n.unwrap()));
    }
    // the placer can complete the enclosure in one placement
    assert_eq!(approx_utility_dot(s, 1), -1000);
}

#[test]
fn dot_utility_max_avoids_the_worse_candidate() {
    let mut d = DotUtilityMax;
    let choices = [board_with_dot(4, 4), board_with_dot(0, 0)];
    // the corner candidate lets the dot step off the board at once
    assert_eq!(d.preferred_state(&choices), 1);
}

#[test]
fn placer_utility_max_prefers_squeezing_the_dot() {
    let mut s = board_with_dot(4, 4);
    let nbrs = s.dot().neighbors();
    for n in nbrs.iter().take(5) {
        assert!(s.fill(n.unwrap()));
    }
    let mut p = PlacerUtilityMax;
    assert_eq!(p.preferred_state(&[board_with_dot(4, 4), s]), 1);
}

#[test]
fn set_dot_moves_only_the_dot() {
    let mut s = board_with_dot(4, 4);
    assert!(s.fill(Pos::from_xy(0, 8)));
    s.set_dot(Pos::from_xy(4, 3));
    assert_eq!(s.dot().xy(), [4, 3]);
    assert!(s.has_filled(Pos::from_xy(0, 8)));
    assert!(!s.has_filled(Pos::from_xy(4, 4)));
}

#[test]
fn coordinates_round_trip() {
    for y in 0..9u8 {
        for x in 0..9u8 {
            assert_eq!(Pos::from_xy(x, y).xy(), [x, y]);
        }
    }
}

#[test]
fn dist_to_edge_examples() {
    assert_eq!(Pos::from_xy(0, 0).dist_to_edge(), 1);
    assert_eq!(Pos::from_xy(4, 4).dist_to_edge(), 5);
    assert_eq!(Pos::from_xy(2, 7).dist_to_edge(), 2);
    assert_eq!(Pos::from_xy(8, 3).dist_to_edge(), 1);
}
