//! Cell indices and coordinates on the staggered 9 x 9 hex grid.
//!
//! Cells are numbered row-major; odd rows are drawn offset by half a cell,
//! which shifts which of the six neighbor offsets stay on the board.

use vstd::prelude::*;

use crate::rng::RandSource;

verus! {

/// Width of the board in cells.
pub const BOARD_W: usize = 9;

/// Height of the board in cells.
pub const BOARD_H: usize = 9;

/// Total number of cells on the board.
pub const BOARD_SIZE: usize = 81;

/// The x-coordinate of the cell with index `p`.
pub open spec fn pos_x(p: int) -> int {
    p % 9
}

/// The y-coordinate of the cell with index `p`.
pub open spec fn pos_y(p: int) -> int {
    p / 9
}

/// Whether the coordinate pair lies on the board.
pub open spec fn in_board_xy(x: int, y: int) -> bool {
    0 <= x < 9 && 0 <= y < 9
}

/// The x-offset of neighbor direction `i` for a row of the given parity.
/// Directions are ordered upper-left, upper-right, left, right,
/// lower-left, lower-right.
pub open spec fn delta_x(i: int, parity: int) -> int {
    if i == 0 {
        parity - 1
    } else if i == 1 {
        parity
    } else if i == 2 {
        -1
    } else if i == 3 {
        1
    } else if i == 4 {
        parity - 1
    } else {
        parity
    }
}

/// The y-offset of neighbor direction `i`.
pub open spec fn delta_y(i: int) -> int {
    if i < 2 {
        -1
    } else if i < 4 {
        0
    } else {
        1
    }
}

/// The x-coordinate of the direction-`i` neighbor of cell `p`.
pub open spec fn nbr_x(p: int, i: int) -> int {
    pos_x(p) + delta_x(i, pos_y(p) % 2)
}

/// The y-coordinate of the direction-`i` neighbor of cell `p`.
pub open spec fn nbr_y(p: int, i: int) -> int {
    pos_y(p) + delta_y(i)
}

/// Whether the direction-`i` neighbor of cell `p` lies on the board.
pub open spec fn nbr_in_bounds(p: int, i: int) -> bool {
    in_board_xy(nbr_x(p, i), nbr_y(p, i))
}

/// The cell index of the direction-`i` neighbor of cell `p`.
pub open spec fn nbr_index(p: int, i: int) -> int {
    nbr_y(p, i) * 9 + nbr_x(p, i)
}

/// Whether cells `p` and `q` are adjacent (q is one of p's on-board neighbors).
pub open spec fn adjacent(p: int, q: int) -> bool {
    exists|i: int| 0 <= i < 6 && nbr_in_bounds(p, i) && #[trigger] nbr_index(p, i) == q
}

/// Whether cell `p` has at least one neighbor direction leading off the board.
pub open spec fn has_offboard_nbr(p: int) -> bool {
    exists|i: int| 0 <= i < 6 && !(#[trigger] nbr_in_bounds(p, i))
}

/// The straight-line distance from cell `p` to the nearest board boundary,
/// ignoring obstacles. Cells on the outer ring have distance 1.
pub open spec fn spec_dist_to_edge(p: int) -> int {
    let dl = pos_x(p) + 1;
    let dr = 9 - pos_x(p);
    let du = pos_y(p) + 1;
    let dd = 9 - pos_y(p);
    let m1 = if dl < dr {
        dl
    } else {
        dr
    };
    let m2 = if du < dd {
        du
    } else {
        dd
    };
    if m1 < m2 {
        m1
    } else {
        m2
    }
}

/// Row-major index building blocks: `y * 9 + x` decomposes back into `x`
/// and `y`.
pub proof fn lemma_decompose(x: int, y: int)
    requires
        0 <= x < 9,
        0 <= y,
    ensures
        pos_x(y * 9 + x) == x,
        pos_y(y * 9 + x) == y,
{
    vstd::arithmetic::div_mod::lemma_fundamental_div_mod_converse(y * 9 + x, 9, y, x);
}

/// An on-board neighbor is on the board and is a different cell.
pub proof fn lemma_nbr_index_valid(p: int, i: int)
    requires
        0 <= p < 81,
        0 <= i < 6,
        nbr_in_bounds(p, i),
    ensures
        0 <= nbr_index(p, i) < 81,
        nbr_index(p, i) != p,
        pos_x(nbr_index(p, i)) == nbr_x(p, i),
        pos_y(nbr_index(p, i)) == nbr_y(p, i),
{
    lemma_decompose(nbr_x(p, i), nbr_y(p, i));
}

/// The straight-line edge distance is always between 1 and 5 on the board.
pub proof fn lemma_dist_bounds(p: int)
    requires
        0 <= p < 81,
    ensures
        1 <= spec_dist_to_edge(p) <= 5,
{
}

/// One move changes the straight-line edge distance by at most one.
pub proof fn lemma_dist_lipschitz(p: int, i: int)
    requires
        0 <= p < 81,
        0 <= i < 6,
        nbr_in_bounds(p, i),
    ensures
        spec_dist_to_edge(nbr_index(p, i)) >= spec_dist_to_edge(p) - 1,
{
    lemma_nbr_index_valid(p, i);
}

/// A cell has an off-board neighbor direction exactly when it sits on the
/// outer ring, where the straight-line edge distance is 1.
pub proof fn lemma_offboard_iff_dist_one(p: int)
    requires
        0 <= p < 81,
    ensures
        has_offboard_nbr(p) <==> spec_dist_to_edge(p) == 1,
{
    let x = pos_x(p);
    let y = pos_y(p);
    if spec_dist_to_edge(p) == 1 {
        if x == 0 {
            assert(!nbr_in_bounds(p, 2));
        } else if x == 8 {
            assert(!nbr_in_bounds(p, 3));
        } else if y == 0 {
            assert(!nbr_in_bounds(p, 0));
        } else {
            assert(y == 8);
            assert(!nbr_in_bounds(p, 4));
        }
        assert(has_offboard_nbr(p));
    }
    if has_offboard_nbr(p) {
        let i = choose|i: int| 0 <= i < 6 && !(#[trigger] nbr_in_bounds(p, i));
        assert(x == 0 || x == 8 || y == 0 || y == 8);
        assert(spec_dist_to_edge(p) == 1);
    }
}

/// From any cell at edge distance two or more, some on-board neighbor is
/// exactly one step closer to the edge.
pub proof fn lemma_dist_step_down(p: int)
    requires
        0 <= p < 81,
        spec_dist_to_edge(p) >= 2,
    ensures
        exists|i: int|
            0 <= i < 6 && #[trigger] nbr_in_bounds(p, i) && spec_dist_to_edge(nbr_index(p, i))
                == spec_dist_to_edge(p) - 1,
{
    let x = pos_x(p);
    let y = pos_y(p);
    let parity = y % 2;
    let d = spec_dist_to_edge(p);
    if x + 1 == d {
        assert(nbr_in_bounds(p, 2));
        lemma_nbr_index_valid(p, 2);
        lemma_dist_lipschitz(p, 2);
        assert(spec_dist_to_edge(nbr_index(p, 2)) == d - 1);
    } else if 9 - x == d {
        assert(nbr_in_bounds(p, 3));
        lemma_nbr_index_valid(p, 3);
        lemma_dist_lipschitz(p, 3);
        assert(spec_dist_to_edge(nbr_index(p, 3)) == d - 1);
    } else if y + 1 == d {
        let i = if parity == 1 {
            0
        } else {
            1
        };
        assert(delta_x(i, parity) == 0);
        assert(nbr_in_bounds(p, i));
        lemma_nbr_index_valid(p, i);
        lemma_dist_lipschitz(p, i);
        assert(spec_dist_to_edge(nbr_index(p, i)) == d - 1);
    } else {
        assert(9 - y == d);
        let i = if parity == 1 {
            4
        } else {
            5
        };
        assert(delta_x(i, parity) == 0);
        assert(nbr_in_bounds(p, i));
        lemma_nbr_index_valid(p, i);
        lemma_dist_lipschitz(p, i);
        assert(spec_dist_to_edge(nbr_index(p, i)) == d - 1);
    }
}

/// Law: neighborship is symmetric. If `q` is `p`'s neighbor in direction
/// `i`, then `p` is `q`'s neighbor in the opposite direction `5 - i`, so
/// every present neighbor's own neighbor set contains `p`.
pub proof fn lemma_neighbor_symmetric(p: int, i: int)
    requires
        0 <= p < 81,
        0 <= i < 6,
        nbr_in_bounds(p, i),
    ensures
        nbr_in_bounds(nbr_index(p, i), 5 - i),
        nbr_index(nbr_index(p, i), 5 - i) == p,
{
    lemma_nbr_index_valid(p, i);
}
#[derive(Clone, Copy, PartialEq, Eq, Structural, Debug)]
pub struct Pos(pub u8);

impl View for Pos {
    type V = int;

    open spec fn view(&self) -> int {
        self.0 as int
    }
}

/// The direction-`i` neighbor of cell `p`, or `None` if it is off the board.
pub open spec fn spec_neighbor(p: int, i: int) -> Option<Pos> {
    if nbr_in_bounds(p, i) {
        Some(Pos(nbr_index(p, i) as u8))
    } else {
        None
    }
}

impl Pos {
    /// A position is well formed when its index lies on the board.
    pub open spec fn wf(self) -> bool {
        0 <= self@ < 81
    }

    /// Construct a position from a pair of coordinates.
    pub fn from_xy(x: u8, y: u8) -> (r: Pos)
        requires
            x < 9,
            y < 9,
        ensures
            r@ == y * 9 + x,
            r.wf(),
            pos_x(r@) == x,
            pos_y(r@) == y,
    {
        Pos(y * 9 + x)
    }

    /// Get the coordinates associated with this position.
    pub fn xy(self) -> (r: [u8; 2])
        requires
            self.wf(),
        ensures
            r@[0] == pos_x(self@),
            r@[1] == pos_y(self@),
    {
        [self.0 % 9, self.0 / 9]
    }

    /// The straight-line distance between this position and the edge of the
    /// board.
    pub fn dist_to_edge(self) -> (r: u8)
        requires
            self.wf(),
        ensures
            r == spec_dist_to_edge(self@),
            1 <= r <= 5,
    {
        let x = self.0 % 9;
        let y = self.0 / 9;
        let dl = x + 1;
        let dr = 9 - x;
        let du = y + 1;
        let dd = 9 - y;
        let m1 = if dl < dr {
            dl
        } else {
            dr
        };
        let m2 = if du < dd {
            du
        } else {
            dd
        };
        if m1 < m2 {
            m1
        } else {
            m2
        }
    }

    /// The direction-`i` neighbor of this position, or `None` if that
    /// direction leaves the board.
    pub(crate) fn compute_neighbor(self, i: u8) -> (r: Option<Pos>)
        requires
            self.wf(),
            i < 6,
        ensures
            r == spec_neighbor(self@, i as int),
    {
        let x = self.0 % 9;
        let y = self.0 / 9;
        let parity: i8 = (y % 2) as i8;
        let dx: i8 = if i == 0 {
            parity - 1
        } else if i == 1 {
            parity
        } else if i == 2 {
            -1
        } else if i == 3 {
            1
        } else if i == 4 {
            parity - 1
        } else {
            parity
        };
        let dy: i8 = if i < 2 {
            -1
        } else if i < 4 {
            0
        } else {
            1
        };
        let nx: i8 = x as i8 + dx;
        let ny: i8 = y as i8 + dy;
        if 0 <= nx && nx < 9 && 0 <= ny && ny < 9 {
            Some(Pos((ny * 9 + nx) as u8))
        } else {
            None
        }
    }

    /// A random position within distance 1 of the center of the board
    /// (cell 40, the middle of row 4): the center itself or one of its six
    /// neighbors, chosen uniformly.
    pub fn near_center<R: RandSource>(rng: &mut R) -> (r: Pos)
        ensures
            r.wf(),
            r@ == 40 || adjacent(40, r@),
    {
        let i = rng.below(7);
        if i == 6 {
            Pos(40)
        } else {
            proof {
                assert(nbr_in_bounds(40, i as int));
                lemma_nbr_index_valid(40, i as int);
            }
            let n = Pos(40).compute_neighbor(i);
            n.unwrap()
        }
    }

    /// A uniformly random position anywhere on the game board.
    pub fn random<R: RandSource>(rng: &mut R) -> (r: Pos)
        ensures
            r.wf(),
    {
        Pos(rng.below(81))
    }

    /// The array of positions adjacent to this one, in the fixed order
    /// upper-left, upper-right, left, right, lower-left, lower-right.
    /// Directions that leave the board are `None`.
    pub fn neighbors(self) -> (r: [Option<Pos>; 6])
        requires
            self.wf(),
        ensures
            forall|i: int| 0 <= i < 6 ==> #[trigger] r@[i] == spec_neighbor(self@, i),
    {
        [
            self.compute_neighbor(0),
            self.compute_neighbor(1),
            self.compute_neighbor(2),
            self.compute_neighbor(3),
            self.compute_neighbor(4),
            self.compute_neighbor(5),
        ]
    }
}

} // verus!
