//! The board as a picture in text: every cell with its candidates, three
//! lines of text for each row of cells.

use vstd::prelude::*;
use crate::board::Board;
use crate::cell::{CellState, is_digit, mask_has, value_char};
use crate::state::board_wf;

verus! {

/// The line above the board and below each band of three rows.
pub open spec fn heavy_line() -> Seq<char> {
    "+++++++++++++++++++++++++++++++++++++++++++++++++++++++++++++++++++++++++\n"@
}

/// The line below each other row.
pub open spec fn light_line() -> Seq<char> {
    "-------------------------------------------------------------------------\n"@
}

/// What a cell shows in the place of digit `d`: its value, if it is fixed,
/// in the place of 5; the digit itself if it is a candidate; else nothing.
pub open spec fn place_text(s: CellState, d: u8) -> Seq<char> {
    if s.0 > 0 && d == 5 {
        seq![value_char(s.0), ' ']
    } else if mask_has(s.1, d) {
        seq![value_char(d), ' ']
    } else {
        seq![' ', ' ']
    }
}

/// The bar to the left of the cell in column `k`, heavy between the blocks.
pub open spec fn bar_text(k: int) -> Seq<char> {
    if k % 3 == 0 {
        "┼ "@
    } else {
        "⏐ "@
    }
}

/// Line `j` of the three lines of a cell in column `k`: its bar and the
/// places of the digits `3 * j + 1` to `3 * j + 3`.
pub open spec fn cell_text(s: CellState, k: int, j: int) -> Seq<char> {
    bar_text(k) + place_text(s, (3 * j + 1) as u8) + place_text(s, (3 * j + 2) as u8) + place_text(
        s,
        (3 * j + 3) as u8,
    )
}

/// Line `j` of the first `k` cells of row `i`.
pub open spec fn line_cells(b: Seq<CellState>, i: int, j: int, k: int) -> Seq<char>
    decreases k,
{
    if k <= 0 {
        Seq::empty()
    } else {
        line_cells(b, i, j, k - 1) + cell_text(b[9 * i + k - 1], k - 1, j)
    }
}

/// Line `j` of row `i`, with its end.
pub open spec fn text_line(b: Seq<CellState>, i: int, j: int) -> Seq<char> {
    line_cells(b, i, j, 9) + "┼\n"@
}

/// The first `j` lines of row `i`.
pub open spec fn row_lines(b: Seq<CellState>, i: int, j: int) -> Seq<char>
    decreases j,
{
    if j <= 0 {
        Seq::empty()
    } else {
        row_lines(b, i, j - 1) + text_line(b, i, j - 1)
    }
}

/// The three lines of row `i` and the line below them.
pub open spec fn row_text(b: Seq<CellState>, i: int) -> Seq<char> {
    row_lines(b, i, 3) + if i % 3 == 2 {
        heavy_line()
    } else {
        light_line()
    }
}

/// The first `i` rows.
pub open spec fn rows_text(b: Seq<CellState>, i: int) -> Seq<char>
    decreases i,
{
    if i <= 0 {
        Seq::empty()
    } else {
        rows_text(b, i - 1) + row_text(b, i - 1)
    }
}

/// The picture of a board.
pub open spec fn board_text(b: Seq<CellState>) -> Seq<char> {
    heavy_line() + rows_text(b, 9)
}

/// The one-character string of a digit.
fn digit_str(d: u8) -> (text: &'static str)
    requires
        is_digit(d),
    ensures
        text@ == seq![value_char(d)],
{
    proof {
        reveal_strlit("1");
        reveal_strlit("2");
        reveal_strlit("3");
        reveal_strlit("4");
        reveal_strlit("5");
        reveal_strlit("6");
        reveal_strlit("7");
        reveal_strlit("8");
        reveal_strlit("9");
    }
    let text = match d {
        1 => "1",
        2 => "2",
        3 => "3",
        4 => "4",
        5 => "5",
        6 => "6",
        7 => "7",
        8 => "8",
        _ => "9",
    };
    assert(text@ =~= seq![value_char(d)]);
    text
}

impl Board {
    /// The board as a picture in text.
    pub fn render(&self) -> (text: String)
        requires
            self.wf(),
        ensures
            text@ == board_text(self@),
    {
        let ghost b = self@;
        let mut out = String::new();
        out.append("+++++++++++++++++++++++++++++++++++++++++++++++++++++++++++++++++++++++++\n");
        assert(out@ =~= heavy_line() + rows_text(b, 0));

        let mut i: usize = 0;
        while i < 9
            invariant
                0 <= i <= 9,
                self.wf(),
                b == self@,
                out@ == heavy_line() + rows_text(b, i as int),
            decreases 9 - i,
        {
            let ghost above = out@;
            let mut j: u8 = 0;
            while j < 3
                invariant
                    0 <= j <= 3,
                    0 <= i < 9,
                    self.wf(),
                    b == self@,
                    out@ == above + row_lines(b, i as int, j as int),
                decreases 3 - j,
            {
                let ghost before = out@;
                let mut k: usize = 0;
                while k < 9
                    invariant
                        0 <= k <= 9,
                        0 <= i < 9,
                        0 <= j < 3,
                        self.wf(),
                        b == self@,
                        out@ == before + line_cells(b, i as int, j as int, k as int),
                    decreases 9 - k,
                {
                    let ghost left = out@;
                    let cell = self.cell(9 * i + k);
                    if k % 3 == 0 {
                        out.append("┼ ");
                    } else {
                        out.append("⏐ ");
                    }
                    let ghost barred = out@;

                    let mut n: u8 = 0;
                    while n < 3
                        invariant
                            0 <= n <= 3,
                            0 <= j < 3,
                            0 <= i < 9,
                            0 <= k < 9,
                            board_wf(b),
                            cell@ == b[9 * i + k],
                            out@ == barred + (if n >= 1 {
                                place_text(cell@, (3 * j + 1) as u8)
                            } else {
                                Seq::empty()
                            }) + (if n >= 2 {
                                place_text(cell@, (3 * j + 2) as u8)
                            } else {
                                Seq::empty()
                            }) + (if n >= 3 {
                                place_text(cell@, (3 * j + 3) as u8)
                            } else {
                                Seq::empty()
                            }),
                        decreases 3 - n,
                    {
                        let digit = 3 * j + n + 1;
                        let ghost written = out@;
                        proof {
                            reveal_strlit(" ");
                            reveal_strlit("  ");
                        }
                        if cell.is_fixed() && digit == 5 {
                            out.append(digit_str(cell.get_value()));
                            out.append(" ");
                        } else if cell.has_candidate(digit).0 {
                            out.append(digit_str(digit));
                            out.append(" ");
                        } else {
                            out.append("  ");
                        }
                        assert(out@ =~= written + place_text(cell@, digit));
                        n += 1;
                    }
                    assert(out@ =~= left + cell_text(cell@, k as int, j as int));
                    assert(out@ =~= before + line_cells(b, i as int, j as int, k as int + 1));
                    k += 1;
                }
                out.append("┼\n");
                assert(out@ =~= above + row_lines(b, i as int, j as int + 1));
                j += 1;
            }
            if i % 3 == 2 {
                out.append(
                    "+++++++++++++++++++++++++++++++++++++++++++++++++++++++++++++++++++++++++\n",
                );
            } else {
                out.append(
                    "-------------------------------------------------------------------------\n",
                );
            }
            assert(out@ =~= heavy_line() + rows_text(b, i as int + 1));
            i += 1;
        }
        out
    }
}

} // verus!
