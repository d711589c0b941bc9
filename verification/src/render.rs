//! The board as text.

use crate::board::{Board, BoardView, Coord};
use crate::stone::Cell;
use vstd::prelude::*;
use vstd::string::*;

verus! {

impl BoardView {
    /// The first `cols` points of a row as text: a line break, then the
    /// symbols of the points with one space between each two of them.  No
    /// space follows the last symbol.
    pub open spec fn render_row(self, row: nat, cols: nat) -> Seq<char>
        decreases cols,
    {
        if cols == 0 {
            seq!['\n']
        } else if cols == 1 {
            seq!['\n', self.at(Coord(row as usize, 1)).symbol_spec()]
        } else {
            self.render_row(row, (cols - 1) as nat) + seq![
                ' ',
                self.at(Coord(row as usize, cols as usize)).symbol_spec(),
            ]
        }
    }

    /// The first `rows` rows as text, the first row first.
    pub open spec fn render_rows(self, rows: nat) -> Seq<char>
        decreases rows,
    {
        if rows == 0 {
            Seq::empty()
        } else {
            self.render_rows((rows - 1) as nat) + self.render_row(rows, self.size)
        }
    }

    /// The whole board as text: one line for each row, from the first row
    /// to the last.  Each line is a line break followed by the symbols of
    /// the row's points, from the first column to the last, separated by
    /// single spaces.
    pub open spec fn render(self) -> Seq<char> {
        self.render_rows(self.size)
    }
}

/// The text of the symbol of a cell.
fn symbol_text(cell: Cell) -> (text: &'static str)
    ensures
        text@ == seq![cell.symbol_spec()],
{
    proof {
        reveal_strlit(".");
        reveal_strlit("x");
        reveal_strlit("o");
    }
    let text = match cell {
        Cell::Empty => ".",
        Cell::Black => "x",
        Cell::White => "o",
    };
    assert(text@ =~= seq![cell.symbol_spec()]);
    text
}

impl Board {
    /// Renders the board: for each row a line break and the symbols of the
    /// row's points, separated by single spaces.  The text depends on
    /// nothing but the cells, and rendering changes nothing: the same board
    /// renders the same way every time.
    pub fn to_string(&self) -> (text: String)
        requires
            self.wf(),
        ensures
            text@ == self@.render(),
    {
        let n = self.size();
        let mut out = String::new();
        let mut row: usize = 1;
        proof {
            reveal_strlit("\n");
            reveal_strlit(" ");
            assert(n < usize::MAX) by (nonlinear_arith)
                requires
                    n * n <= usize::MAX,
                    usize::MAX >= 2,
            ;
        }
        while row <= n
            invariant
                self.wf(),
                n == self@.size,
                n < usize::MAX,
                1 <= row <= n + 1,
                out@ == self@.render_rows((row - 1) as nat),
            decreases n + 1 - row,
        {
            let ghost rows_before = out@;
            out.append("\n");
            let mut col: usize = 1;
            proof {
                reveal_strlit("\n");
                assert(out@ =~= rows_before + self@.render_row(row as nat, 0));
            }
            while col <= n
                invariant
                    self.wf(),
                    n == self@.size,
                    n < usize::MAX,
                    1 <= row <= n,
                    1 <= col <= n + 1,
                    out@ == rows_before + self@.render_row(row as nat, (col - 1) as nat),
                decreases n + 1 - col,
            {
                let ghost line_before = self@.render_row(row as nat, (col - 1) as nat);
                let cell = self.cell_at(Coord(row, col));
                if col > 1 {
                    out.append(" ");
                }
                out.append(symbol_text(cell));
                proof {
                    reveal_strlit(" ");
                    assert(" "@ =~= seq![' ']);
                    if col > 1 {
                        assert(out@ =~= rows_before + (line_before + seq![' ', cell.symbol_spec()]));
                    } else {
                        assert(line_before =~= seq!['\n']);
                        assert(out@ =~= rows_before + seq!['\n', cell.symbol_spec()]);
                    }
                }
                col += 1;
            }
            row += 1;
        }
        out
    }
}

} // verus!
