//! The result of counting a finished game.
use vstd::prelude::*;

use crate::board::rules::score_color;
use crate::board::Color;
use crate::board::Komi;
use crate::text::decimal;
use crate::text::digit_char;
use crate::text::digit_to_char;
use crate::text::push_char;
use crate::text::push_decimal;

verus! {

/// Who won a counted game and by how much.
pub struct Score {
    color: Color,
    score: u128,
}

/// The margin, in tenths of a point, between Black's `bs` points and
/// White's `ws` points plus komi.
pub open spec fn score_margin(bs: int, ws: int, komi: int) -> int {
    let d = bs * 10 - (ws * 10 + komi);
    if d >= 0 {
        d
    } else {
        -d
    }
}

/// The text of a margin given in tenths: the whole points, then the
/// tenth after a dot unless it is zero.
pub open spec fn tenths_text(t: nat) -> Seq<char> {
    if t % 10 == 0 {
        decimal(t / 10)
    } else {
        decimal(t / 10) + seq!['.', digit_char(t % 10)]
    }
}

/// The text of a komi given in tenths, as the komi prints as a number: a
/// minus sign before a negative komi, then its size as `tenths_text` writes
/// it.
pub open spec fn komi_text(k: int) -> Seq<char> {
    if k < 0 {
        seq!['-'] + tenths_text((-k) as nat)
    } else {
        tenths_text(k as nat)
    }
}

/// Appends the text of a komi.
pub fn push_komi(s: &mut String, komi: Komi)
    ensures
        final(s)@ == old(s)@ + komi_text(komi.0 as int),
{
    let ghost before = s@;
    let k: i64 = komi.0 as i64;
    let t: u128 = if k < 0 {
        push_char(s, '-');
        (0 - k) as u128
    } else {
        k as u128
    };
    push_decimal(s, t / 10);
    let frac = (t % 10) as u8;
    if frac != 0 {
        push_char(s, '.');
        push_char(s, digit_to_char(frac));
    }
    assert(s@ =~= before + komi_text(komi.0 as int));
}

/// The text of a result: `B+` or `W+` before the margin, nothing for a tie.
pub open spec fn score_text(color: Color, t: nat) -> Seq<char> {
    let prefix = match color {
        Color::Black => seq!['B', '+'],
        Color::White => seq!['W', '+'],
        Color::Empty => Seq::<char>::empty(),
    };
    prefix + tenths_text(t)
}

impl Score {
    pub closed spec fn winner_color(&self) -> Color {
        self.color
    }

    pub closed spec fn margin(&self) -> int {
        self.score as int
    }

    /// Counts a game: Black's and White's points, and White's komi.
    pub fn new(scores: (usize, usize), komi: Komi) -> (res: Score)
        ensures
            res.winner_color() == score_color(scores.0 as int, scores.1 as int, komi.0 as int),
            res.margin() == score_margin(scores.0 as int, scores.1 as int, komi.0 as int),
    {
        let (bs, ws) = scores;
        let b_score: i128 = bs as i128 * 10;
        let w_score: i128 = ws as i128 * 10 + komi.0 as i128;
        let diff: i128 = b_score - w_score;
        let score: u128 = if diff >= 0 { diff as u128 } else { (-diff) as u128 };
        let color = if b_score == w_score {
            Color::Empty
        } else if b_score > w_score {
            Color::Black
        } else {
            Color::White
        };
        Score { color, score }
    }

    pub fn color(&self) -> (res: Color)
        ensures
            res == self.winner_color(),
    {
        self.color
    }

    /// The result as text, such as `B+4`, `W+6.5` or `0`.
    pub fn as_string(&self) -> (res: String)
        ensures
            res@ == score_text(self.winner_color(), self.margin() as nat),
    {
        let mut s = String::new();
        match self.color {
            Color::Black => {
                push_char(&mut s, 'B');
                push_char(&mut s, '+');
            },
            Color::White => {
                push_char(&mut s, 'W');
                push_char(&mut s, '+');
            },
            Color::Empty => {},
        }
        let ghost prefix = s@;
        push_decimal(&mut s, self.score / 10);
        let frac = (self.score % 10) as u8;
        if frac != 0 {
            push_char(&mut s, '.');
            push_char(&mut s, digit_to_char(frac));
        }
        assert(s@ =~= score_text(self.color, self.score as nat));
        s
    }
}

} // verus!
