//! Moves: a stone played on a point, a pass or a resignation.
use vstd::prelude::*;

use super::coord::ascii_lower;
use super::coord::gtp_text;
use super::coord::gtp_vertex_coord;
use super::coord::is_gtp_vertex;
use super::coord::lemma_gtp_round_trip;
use super::Color;
use super::color_text;
use super::is_color_text;
use super::Coord;
use crate::text::decimal;
use crate::text::lemma_decimal_digits;
use crate::text::push_char;

verus! {

/// A move of one player.
#[derive(Clone, Copy, Debug, PartialEq, Eq, Hash, Structural)]
pub enum Move {
    Pass(Color),
    Play(Color, u8, u8),
    Resign(Color),
}

/// Whether `s` spells `word` (given in lower case) ignoring ASCII case.
pub open spec fn spells(s: Seq<char>, word: Seq<char>) -> bool {
    s.len() == word.len() && forall|i: int| 0 <= i < s.len() ==> ascii_lower(#[trigger] s[i]) == word[i]
}

/// Whether a GTP vertex text reads as a pass.
pub open spec fn is_pass_text(s: Seq<char>) -> bool {
    spells(s, seq!['p', 'a', 's', 's'])
}

/// Whether a GTP vertex text reads as a resignation.
pub open spec fn is_resign_text(s: Seq<char>) -> bool {
    spells(s, seq!['r', 'e', 's', 'i', 'g', 'n'])
}

/// Whether `Move::from_gtp` reads a colour and a vertex.
pub open spec fn is_gtp_move(color: Seq<char>, vertex: Seq<char>) -> bool {
    is_color_text(color) && (is_pass_text(vertex) || is_resign_text(vertex) || is_gtp_vertex(vertex))
}

/// The move that a GTP colour and vertex name.
pub open spec fn gtp_move(color: Seq<char>, vertex: Seq<char>) -> Move {
    let c = color_text(color);
    if is_pass_text(vertex) {
        Move::Pass(c)
    } else if is_resign_text(vertex) {
        Move::Resign(c)
    } else {
        let p = gtp_vertex_coord(vertex);
        Move::Play(c, p.col, p.row)
    }
}

/// The colour of the player who makes a move.
pub open spec fn move_color(m: Move) -> Color {
    match m {
        Move::Pass(c) => c,
        Move::Play(c, _, _) => c,
        Move::Resign(c) => c,
    }
}

/// The point of a played stone.
pub open spec fn move_coord(m: Move) -> Coord {
    match m {
        Move::Play(_, col, row) => Coord { col, row },
        _ => Coord { col: 0, row: 0 },
    }
}

/// The GTP text of a move.
pub open spec fn move_gtp_text(m: Move) -> Seq<char> {
    match m {
        Move::Pass(_) => seq!['p', 'a', 's', 's'],
        Move::Play(_, col, row) => gtp_text(Coord { col, row }),
        Move::Resign(_) => seq!['r', 'e', 's', 'i', 'g', 'n'],
    }
}

/// Reading the GTP text of a move, with a colour text that names its
/// player, gives the move back; for plays, in the columns `A` to `Z`
/// (without `I`).
pub proof fn lemma_move_gtp_round_trip(color: Seq<char>, m: Move)
    requires
        is_color_text(color),
        move_color(m) == color_text(color),
        m is Play ==> 1 <= m->1 <= 25,
    ensures
        is_gtp_move(color, move_gtp_text(m)),
        gtp_move(color, move_gtp_text(m)) == m,
{
    match m {
        Move::Play(c, col, row) => {
            let p = Coord { col, row };
            lemma_gtp_round_trip(p);
            lemma_decimal_digits(row as nat);
            let t = gtp_text(p);
            let d = decimal(row as nat);
            assert(t[1] == d[0]);
            assert('0' <= d[0] <= '9');
            assert(ascii_lower(t[1]) == t[1]);
            assert(!is_pass_text(t)) by {
                if t.len() == 4 {
                    assert(ascii_lower(t[1]) != 'a');
                }
            }
            assert(!is_resign_text(t)) by {
                if t.len() == 6 {
                    assert(ascii_lower(t[1]) != 'e');
                }
            }
        },
        Move::Pass(_) => {
            assert(is_pass_text(seq!['p', 'a', 's', 's']));
        },
        Move::Resign(_) => {
            assert(!is_pass_text(seq!['r', 'e', 's', 'i', 'g', 'n']));
            assert(is_resign_text(seq!['r', 'e', 's', 'i', 'g', 'n']));
        },
    }
}

/// Whether `s` spells `word` ignoring ASCII case.
pub(crate) fn spells_word(s: &str, word: &str) -> (res: bool)
    requires
        forall|i: int| 0 <= i < word@.len() ==> ascii_lower(#[trigger] word@[i]) == word@[i],
    ensures
        res == spells(s@, word@),
{
    let n = s.unicode_len();
    let w = word.unicode_len();
    if n != w {
        return false;
    }
    let mut i: usize = 0;
    while i < n
        invariant
            i <= n,
            n == s@.len(),
            w == word@.len(),
            n == w,
            forall|k: int| 0 <= k < i ==> ascii_lower(#[trigger] s@[k]) == word@[k],
        decreases n - i,
    {
        let c = s.get_char(i);
        let lower: char = if 'A' <= c && c <= 'Z' { ((c as u8) + 32) as char } else { c };
        if lower != word.get_char(i) {
            return false;
        }
        i = i + 1;
    }
    true
}

/// Whether a GTP colour and vertex read as a move.
pub fn is_gtp_move_text(color: &str, vertex: &str) -> (res: bool)
    ensures
        res == is_gtp_move(color@, vertex@),
{
    if !super::is_gtp_color(color) {
        return false;
    }
    proof {
        reveal_strlit("pass");
        reveal_strlit("resign");
    }
    if spells_word(vertex, "pass") || spells_word(vertex, "resign") {
        return true;
    }
    super::coord::is_gtp_vertex_text(vertex)
}

impl Move {
    /// Reads a GTP colour and vertex: `pass`, `resign` or a point.
    pub fn from_gtp(gtp_color: &str, gtp_vertex: &str) -> (res: Move)
        requires
            is_gtp_move(gtp_color@, gtp_vertex@),
        ensures
            res == gtp_move(gtp_color@, gtp_vertex@),
    {
        let color = Color::from_gtp(gtp_color);
        proof {
            reveal_strlit("pass");
            reveal_strlit("resign");
        }
        if spells_word(gtp_vertex, "pass") {
            Move::Pass(color)
        } else if spells_word(gtp_vertex, "resign") {
            Move::Resign(color)
        } else {
            let coord = Coord::from_gtp(gtp_vertex);
            Move::Play(color, coord.col, coord.row)
        }
    }

    /// The GTP text of the move.
    pub fn to_gtp(&self) -> (res: String)
        requires
            self is Play ==> self->1 < 191,
        ensures
            res@ == move_gtp_text(*self),
    {
        match *self {
            Move::Pass(_) => {
                let mut s = String::new();
                push_char(&mut s, 'p');
                push_char(&mut s, 'a');
                push_char(&mut s, 's');
                push_char(&mut s, 's');
                assert(s@ =~= seq!['p', 'a', 's', 's']);
                s
            },
            Move::Play(_, col, row) => Coord::new(col, row).to_gtp(),
            Move::Resign(_) => {
                let mut s = String::new();
                push_char(&mut s, 'r');
                push_char(&mut s, 'e');
                push_char(&mut s, 's');
                push_char(&mut s, 'i');
                push_char(&mut s, 'g');
                push_char(&mut s, 'n');
                assert(s@ =~= seq!['r', 'e', 's', 'i', 'g', 'n']);
                s
            },
        }
    }

    pub fn color(&self) -> (res: &Color)
        ensures
            *res == move_color(*self),
    {
        match self {
            Move::Play(c, _, _) => c,
            Move::Pass(c) => c,
            Move::Resign(c) => c,
        }
    }

    /// The point of a played stone; only plays have one.
    pub fn coord(&self) -> (res: Coord)
        requires
            self is Play,
        ensures
            res == move_coord(*self),
    {
        match *self {
            Move::Play(_, col, row) => Coord::new(col, row),
            _ => vstd::pervasive::unreached(),
        }
    }

    /// The point of a played stone; the same as `coord`.
    pub fn coords(&self) -> (res: Coord)
        requires
            self is Play,
        ensures
            res == move_coord(*self),
    {
        self.coord()
    }

    pub fn is_pass(&self) -> (res: bool)
        ensures
            res == (*self is Pass),
    {
        match *self {
            Move::Pass(_) => true,
            _ => false,
        }
    }

    pub fn is_resign(&self) -> (res: bool)
        ensures
            res == (*self is Resign),
    {
        match *self {
            Move::Resign(_) => true,
            _ => false,
        }
    }
}

} // verus!
