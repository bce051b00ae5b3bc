//! The text rendering of a board: a fixed-width grid, one glyph per cell,
//! with odd rows indented by half a cell. `@` marks the dot, `o` a filled
//! cell, and a middle dot an empty cell; a line of `=` runs above the board.

use vstd::prelude::*;
use vstd::string::StringExecFns;

use crate::board::State;
use crate::geometry::Pos;

verus! {

/// The glyph drawn for cell `p`.
pub open spec fn glyph(s: State, p: int) -> char {
    if p == s.dot@ {
        '@'
    } else if s.filled@[p] {
        'o'
    } else {
        '\u{00b7}'
    }
}

/// The two characters emitted for the cell at `(x, y)`: its glyph, then a
/// separating space, or a newline at the end of the row.
pub open spec fn cell_chars(s: State, x: int, y: int) -> Seq<char> {
    seq![
        glyph(s, y * 9 + x),
        if x == 8 {
            '\n'
        } else {
            ' '
        },
    ]
}

/// The characters of the first `n` cells of row `y`.
pub open spec fn row_cells(s: State, y: int, n: int) -> Seq<char>
    decreases n,
{
    if n <= 0 {
        Seq::empty()
    } else {
        row_cells(s, y, n - 1) + cell_chars(s, n - 1, y)
    }
}

/// The characters of row `y`, including the offset space of an odd row.
pub open spec fn row_chars(s: State, y: int) -> Seq<char> {
    (if y % 2 == 1 {
        seq![' ']
    } else {
        Seq::<char>::empty()
    }) + row_cells(s, y, 9)
}

/// The characters of the first `n` rows.
pub open spec fn rows_upto(s: State, n: int) -> Seq<char>
    decreases n,
{
    if n <= 0 {
        Seq::empty()
    } else {
        rows_upto(s, n - 1) + row_chars(s, n - 1)
    }
}

/// The ruled line above the board: twice the board width of `=`, then a
/// newline.
pub open spec fn render_header() -> Seq<char> {
    Seq::new(18, |k: int| '=') + seq!['\n']
}

/// The full text rendering of a board.
pub open spec fn spec_render(s: State) -> Seq<char> {
    render_header() + rows_upto(s, 9)
}

impl State {
    /// The string representation of this board, faithful to `has_filled` and
    /// the dot position for every cell.
    #[verifier::loop_isolation(false)]
    pub fn display(self) -> (r: String)
        requires
            self.wf(),
        ensures
            r@ == spec_render(self),
    {
        proof {
            reveal_strlit("=");
            reveal_strlit("\n");
            reveal_strlit(" ");
            reveal_strlit("@");
            reveal_strlit("o");
            reveal_strlit("\u{00b7}");
        }
        let mut out = String::new();
        let mut i: usize = 0;
        while i < 18
            invariant
                i <= 18,
                out@ == Seq::new(i as nat, |k: int| '='),
            decreases 18 - i,
        {
            out.append("=");
            i += 1;
            proof {
                assert(out@ =~= Seq::new(i as nat, |k: int| '='));
            }
        }
        out.append("\n");
        proof {
            assert(out@ =~= render_header());
        }
        let mut y: usize = 0;
        while y < 9
            invariant
                y <= 9,
                out@ == render_header() + rows_upto(self, y as int),
            decreases 9 - y,
        {
            let ghost row_prefix = out@;
            if y % 2 == 1 {
                out.append(" ");
            }
            proof {
                assert(out@ =~= row_prefix + (if y as int % 2 == 1 {
                    seq![' ']
                } else {
                    Seq::<char>::empty()
                }) + row_cells(self, y as int, 0));
            }
            let mut x: usize = 0;
            while x < 9
                invariant
                    x <= 9,
                    y < 9,
                    out@ == row_prefix + (if y as int % 2 == 1 {
                        seq![' ']
                    } else {
                        Seq::<char>::empty()
                    }) + row_cells(self, y as int, x as int),
                decreases 9 - x,
            {
                let ghost before = out@;
                let pos = Pos((y * 9 + x) as u8);
                proof {
                    assert(pos@ == y * 9 + x);
                    assert(pos.wf());
                }
                if pos.0 == self.dot.0 {
                    out.append("@");
                    proof {
                        assert(out@ =~= before + seq![glyph(self, pos@)]);
                    }
                } else if self.has_filled(pos) {
                    out.append("o");
                    proof {
                        assert(out@ =~= before + seq![glyph(self, pos@)]);
                    }
                } else {
                    out.append("\u{00b7}");
                    proof {
                        assert(out@ =~= before + seq![glyph(self, pos@)]);
                    }
                }
                if x == 8 {
                    out.append("\n");
                } else {
                    out.append(" ");
                }
                x += 1;
                proof {
                    assert(out@ =~= before + cell_chars(self, x as int - 1, y as int));
                    assert(out@ =~= row_prefix + (if y as int % 2 == 1 {
                        seq![' ']
                    } else {
                        Seq::<char>::empty()
                    }) + row_cells(self, y as int, x as int));
                }
            }
            y += 1;
            proof {
                assert(out@ =~= row_prefix + row_chars(self, y as int - 1));
                assert(out@ =~= render_header() + rows_upto(self, y as int));
            }
        }
        out
    }
}

} // verus!
