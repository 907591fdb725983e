//! The board drawn as text, top row first.
use vstd::prelude::*;

use super::rules::point_color;
use super::rules::BoardView;
use super::Board;
use super::Color;
use super::Coord;
use crate::text::decimal;
use crate::text::push_char;
use crate::text::push_decimal;

verus! {

/// A line that carries star points on the larger boards.
pub open spec fn is_hoshi_line(x: int) -> bool {
    x == 4 || x == 10 || x == 16
}

/// The two characters of a point: `X ` black, `O ` white, `+ ` a vacant
/// star point, `. ` another vacant point.
pub open spec fn point_text(b: BoardView, col: int, row: int) -> Seq<char> {
    match point_color(b, Coord { col: col as u8, row: row as u8 }) {
        Color::Black => seq!['X', ' '],
        Color::White => seq!['O', ' '],
        Color::Empty => if is_hoshi_line(row) && is_hoshi_line(col) {
            seq!['+', ' ']
        } else {
            seq!['.', ' ']
        },
    }
}

/// The points of columns `1..=cols` of a row.
pub open spec fn row_points_text(b: BoardView, row: int, cols: int) -> Seq<char>
    decreases cols,
{
    if cols <= 0 {
        Seq::empty()
    } else {
        row_points_text(b, row, cols - 1) + point_text(b, cols, row)
    }
}

/// A row number right-aligned in two characters, and a space.
pub open spec fn row_label(row: int) -> Seq<char> {
    if row < 10 {
        seq![' '] + decimal(row as nat) + seq![' ']
    } else {
        decimal(row as nat) + seq![' ']
    }
}

/// The line of a row: its label, its points and a newline.
pub open spec fn row_line(b: BoardView, row: int) -> Seq<char> {
    row_label(row) + row_points_text(b, row, b.size) + seq!['\n']
}

/// The lines of the top `k` rows, the top row first.
pub open spec fn top_rows_text(b: BoardView, k: int) -> Seq<char>
    decreases k,
{
    if k <= 0 {
        Seq::empty()
    } else {
        top_rows_text(b, k - 1) + row_line(b, b.size - k + 1)
    }
}

impl Board {
    /// The board as text, one line per row from the top row down.
    pub fn as_string(&self) -> (res: String)
        requires
            self.well_formed(),
        ensures
            res@ == top_rows_text(self@, self@.size),
    {
        proof {
            self.lemma_well_formed();
        }
        let ghost b = self@;
        let size = self.size;
        let mut s = String::new();
        let mut k: u8 = 0;
        while k < size
            invariant
                self.well_formed(),
                b == self@,
                size == b.size,
                size < 127,
                b.cells.len() == b.size * b.size,
                k <= size,
                s@ == top_rows_text(b, k as int),
            decreases size - k,
        {
            let row = size - k;
            let ghost before = s@;
            if row < 10 {
                push_char(&mut s, ' ');
            }
            push_decimal(&mut s, row as u128);
            push_char(&mut s, ' ');
            assert(s@ =~= before + row_label(row as int));
            let ghost labelled = s@;
            let mut col: u8 = 1;
            while col <= size
                invariant
                    self.well_formed(),
                    b == self@,
                    size == b.size,
                    size < 127,
                    b.cells.len() == b.size * b.size,
                    1 <= row <= size,
                    1 <= col <= size + 1,
                    s@ == labelled + row_points_text(b, row as int, col - 1),
                decreases size + 1 - col,
            {
                let p = Coord { col, row };
                proof {
                    crate::board::position::lemma_index_bounds(p, b.size);
                }
                let ghost mid = s@;
                match self.color(&p) {
                    Color::Empty => {
                        let hoshi_row = row == 4 || row == 10 || row == 16;
                        let hoshi_col = col == 4 || col == 10 || col == 16;
                        if hoshi_row && hoshi_col {
                            push_char(&mut s, '+');
                        } else {
                            push_char(&mut s, '.');
                        }
                    },
                    Color::White => {
                        push_char(&mut s, 'O');
                    },
                    Color::Black => {
                        push_char(&mut s, 'X');
                    },
                }
                push_char(&mut s, ' ');
                assert(s@ =~= mid + point_text(b, col as int, row as int));
                col = col + 1;
            }
            push_char(&mut s, '\n');
            assert(s@ =~= before + row_line(b, row as int));
            k = k + 1;
        }
        s
    }
}

} // verus!
