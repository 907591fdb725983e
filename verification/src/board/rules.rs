//! The rules of play, stated over the abstract state of a board.
use vstd::prelude::*;

use super::coord::adjacent;
use super::coord::index_of;
use super::coord::inside;
use super::movement::move_color;
use super::movement::move_coord;
use super::opposite_color;
use super::position::chain_len;
use super::position::collect_points;
use super::position::color_at;
use super::position::has_liberty;
use super::position::in_chain;
use super::position::liberty_count;
use super::position::remove_where;
use super::position::touches;
use super::position::is_liberty;
use super::position::count_points;
use super::coord::diagonal_candidates;
use super::coord::inside_only;
use super::Color;
use super::Coord;
use super::IllegalMove;
use super::Move;
use crate::ruleset::allows_game_over_play;
use crate::ruleset::allows_same_player;
use crate::ruleset::allows_suicide;
use crate::ruleset::Ruleset;

verus! {

/// The state of a board: the colour of every point, row by row, and what
/// the rules remember of the moves played so far.
pub ghost struct BoardView {
    pub cells: Seq<Color>,
    pub size: int,
    pub ko: Option<Coord>,
    pub komi: int,
    pub previous_player: Color,
    pub resigned_by: Color,
    pub consecutive_passes: int,
    pub ruleset: Ruleset,
    pub adv_stones_removed: Seq<Coord>,
    pub friend_stones_removed: Seq<Coord>,
}

/// An empty board.
pub open spec fn empty_board(size: int, komi: int, ruleset: Ruleset) -> BoardView {
    BoardView {
        cells: Seq::new((size * size) as nat, |i: int| Color::Empty),
        size,
        ko: None,
        komi,
        previous_player: Color::White,
        resigned_by: Color::Empty,
        consecutive_passes: 0,
        ruleset,
        adv_stones_removed: Seq::empty(),
        friend_stones_removed: Seq::empty(),
    }
}

/// The game ends after two passes in a row or a resignation.
pub open spec fn game_over(b: BoardView) -> bool {
    b.consecutive_passes == 2 || b.resigned_by != Color::Empty
}

/// The colour of the point `p`.
pub open spec fn point_color(b: BoardView, p: Coord) -> Color {
    color_at(b.cells, b.size, p)
}

/// Playing `color` on `p` would retake a ko: `p` touches an opposing
/// single stone that has only one liberty.
pub open spec fn retakes_ko(b: BoardView, p: Coord, color: Color) -> bool {
    exists|q: Coord|
        inside(q, b.size) && #[trigger] adjacent(p, q) && point_color(b, q) == opposite_color(color)
            && liberty_count(b.cells, b.size, q) == 1 && chain_len(b.cells, b.size, q) == 1
}

/// Playing `color` on `p` is suicide: every neighbour is occupied, every
/// opposing neighbour chain keeps another liberty and every own neighbour
/// chain has no other liberty.
pub open spec fn is_suicide(b: BoardView, p: Coord, color: Color) -> bool {
    &&& forall|q: Coord|
        inside(q, b.size) && #[trigger] adjacent(p, q) ==> point_color(b, q) != Color::Empty
    &&& forall|q: Coord|
        inside(q, b.size) && #[trigger] adjacent(p, q) && point_color(b, q) == opposite_color(color)
            ==> liberty_count(b.cells, b.size, q) > 1
    &&& forall|q: Coord|
        inside(q, b.size) && #[trigger] adjacent(p, q) && point_color(b, q) == color
            ==> liberty_count(b.cells, b.size, q) <= 1
}

/// Whether the rules allow a move, and if not, why.
pub open spec fn legality(b: BoardView, m: Move) -> Result<(), IllegalMove> {
    let color = move_color(m);
    if game_over(b) && !allows_game_over_play(b.ruleset) {
        Err(IllegalMove::GameAlreadyOver)
    } else if b.previous_player == color && !allows_same_player(b.ruleset) {
        Err(IllegalMove::SamePlayerPlayedTwice)
    } else if m is Pass || m is Resign {
        Ok(())
    } else {
        let p = move_coord(m);
        if !inside(p, b.size) {
            Err(IllegalMove::PlayOutOfBoard)
        } else if point_color(b, p) != Color::Empty {
            Err(IllegalMove::IntersectionNotEmpty)
        } else if b.ko == Some(p) && retakes_ko(b, p, color) {
            Err(IllegalMove::Ko)
        } else if !allows_suicide(b.ruleset) && is_suicide(b, p, color) {
            Err(IllegalMove::SuicidePlay)
        } else {
            Ok(())
        }
    }
}

/// The chain of `q` next to the stone just played on `p` is an opposing
/// chain left without liberties.
pub open spec fn captures(cells: Seq<Color>, size: int, p: Coord, color: Color, q: Coord) -> bool {
    inside(q, size) && adjacent(p, q) && color_at(cells, size, q) == opposite_color(color)
        && !has_liberty(cells, size, q)
}

/// `x` belongs to an opposing chain that the stone on `p` captures.
pub open spec fn captured(cells: Seq<Color>, size: int, p: Coord, color: Color, x: Coord) -> bool {
    exists|q: Coord| #[trigger] captures(cells, size, p, color, q) && in_chain(cells, size, q, x)
}

/// The colours once `color` is placed on `p`.
pub open spec fn placed(b: BoardView, p: Coord, color: Color) -> Seq<Color> {
    b.cells.update(index_of(p, b.size), color)
}

/// The colours once the opposing chains that the placed stone captures are
/// removed.
pub open spec fn after_capture(b: BoardView, p: Coord, color: Color) -> Seq<Color> {
    let c1 = placed(b, p, color);
    remove_where(c1, b.size, |x: Coord| captured(c1, b.size, p, color, x))
}

/// The state after a move that the rules allow.
pub open spec fn play_result(b: BoardView, m: Move) -> BoardView {
    match m {
        Move::Pass(c) => BoardView {
            previous_player: c,
            consecutive_passes: b.consecutive_passes + 1,
            ..b
        },
        Move::Resign(c) => BoardView {
            previous_player: c,
            consecutive_passes: 0,
            resigned_by: c,
            ..b
        },
        Move::Play(c, col, row) => {
            let p = Coord { col, row };
            let c1 = placed(b, p, c);
            let c2 = after_capture(b, p, c);
            let suicide = !has_liberty(c2, b.size, p);
            let own = |x: Coord| in_chain(c2, b.size, p, x);
            let adv = collect_points(|x: Coord| captured(c1, b.size, p, c, x), b.size);
            let friend = if suicide {
                collect_points(own, b.size)
            } else {
                b.friend_stones_removed
            };
            BoardView {
                cells: if suicide {
                    remove_where(c2, b.size, own)
                } else {
                    c2
                },
                previous_player: c,
                consecutive_passes: 0,
                adv_stones_removed: adv,
                friend_stones_removed: friend,
                ko: if adv.len() == 1 && friend.len() == 0 {
                    Some(adv[0])
                } else {
                    None
                },
                ..b
            }
        },
    }
}

/// `coord` is an eye of `color`: all its neighbours have that colour, and
/// the opponent holds none of its diagonals (on the edge) or at most one
/// (in the middle).
pub open spec fn is_eye_of(b: BoardView, coord: Coord, color: Color, diagonals: Seq<Coord>) -> bool {
    &&& forall|q: Coord| inside(q, b.size) && #[trigger] adjacent(coord, q) ==> point_color(b, q) == color
    &&& if diagonals.len() < 4 {
        forall|i: int| 0 <= i < diagonals.len() ==> point_color(b, #[trigger] diagonals[i]) != opposite_color(color)
    } else {
        count_matching(diagonals, |q: Coord| point_color(b, q) == opposite_color(color)) <= 1
    }
}

/// The number of elements of `s` that satisfy `pred`.
pub open spec fn count_matching(s: Seq<Coord>, pred: spec_fn(Coord) -> bool) -> nat
    decreases s.len(),
{
    if s.len() == 0 {
        0
    } else {
        count_matching(s.drop_last(), pred) + if pred(s.last()) {
            1nat
        } else {
            0nat
        }
    }
}

/// `coord` is an eye of `color` on the board.
pub open spec fn eye(b: BoardView, coord: Coord, color: Color) -> bool {
    is_eye_of(b, coord, color, inside_only(diagonal_candidates(coord), b.size))
}

/// The player whose turn it is.
pub open spec fn next_color(b: BoardView) -> Color {
    opposite_color(b.previous_player)
}

/// A vacant point where `color` may play.
pub open spec fn playable(b: BoardView, color: Color, c: Coord) -> bool {
    point_color(b, c) == Color::Empty && legality(b, Move::Play(color, c.col, c.row)) is Ok
}

/// Plays of `color` on the given points.
pub open spec fn as_plays(pts: Seq<Coord>, color: Color) -> Seq<Move> {
    pts.map_values(|c: Coord| Move::Play(color, c.col, c.row))
}

/// The plays the player to move may make, by column and then by row;
/// none once the game is over.
pub open spec fn legal_plays(b: BoardView) -> Seq<Move> {
    if game_over(b) {
        Seq::empty()
    } else {
        as_plays(collect_points(|c: Coord| playable(b, next_color(b), c), b.size), next_color(b))
    }
}

/// The plays the player to move may make that do not fill an own eye.
pub open spec fn legal_plays_without_eyes(b: BoardView) -> Seq<Move> {
    if game_over(b) {
        Seq::empty()
    } else {
        as_plays(
            collect_points(
                |c: Coord| playable(b, next_color(b), c) && !eye(b, c, next_color(b)),
                b.size,
            ),
            next_color(b),
        )
    }
}

/// The vacant points of the board, by column and then by row.
pub open spec fn vacant_points(b: BoardView) -> Seq<Coord> {
    collect_points(|c: Coord| point_color(b, c) == Color::Empty, b.size)
}

/// The number of vacant points of the board.
pub open spec fn vacant_count(b: BoardView) -> nat {
    count_points(|c: Coord| point_color(b, c) == Color::Empty, b.size)
}

/// The vacant region of `x` borders a stone of `color`.
pub open spec fn reaches(b: BoardView, x: Coord, color: Color) -> bool {
    exists|z: Coord| #[trigger] touches(b.cells, b.size, x, z, color)
}

/// A point counts for `color`: a stone of that colour, or a vacant point
/// whose region borders stones of that colour only.
pub open spec fn owned_by(b: BoardView, x: Coord, color: Color) -> bool {
    ||| point_color(b, x) == color
    ||| point_color(b, x) == Color::Empty && reaches(b, x, color) && !reaches(
        b,
        x,
        opposite_color(color),
    )
}

/// The area of `color`: its stones and the vacant points it alone surrounds.
pub open spec fn area(b: BoardView, color: Color) -> nat {
    count_points(|x: Coord| inside(x, b.size) && owned_by(b, x, color), b.size)
}

/// The winner of a finished game: the opponent of a player who resigned,
/// otherwise the player with the larger area once komi is added for White.
pub open spec fn winner_of(b: BoardView) -> Color {
    if b.resigned_by == Color::Empty {
        score_color(area(b, Color::Black) as int, area(b, Color::White) as int, b.komi)
    } else {
        opposite_color(b.resigned_by)
    }
}

/// Who leads when Black has `bs` points and White `ws` points plus a komi
/// given in tenths; `Empty` for a tie.
pub open spec fn score_color(bs: int, ws: int, komi: int) -> Color {
    if bs * 10 == ws * 10 + komi {
        Color::Empty
    } else if bs * 10 > ws * 10 + komi {
        Color::Black
    } else {
        Color::White
    }
}

/// A liberty of the chain that a stone of `color` on `p` would form by
/// joining its neighbouring chains: a liberty of one of those chains or a
/// vacant neighbour of `p`.
pub open spec fn joined_liberty(b: BoardView, p: Coord, color: Color, l: Coord) -> bool {
    &&& inside(l, b.size)
    &&& {
        ||| exists|q: Coord|
            inside(q, b.size) && #[trigger] adjacent(p, q) && point_color(b, q) == color
                && is_liberty(b.cells, b.size, q, l)
        ||| adjacent(p, l) && point_color(b, l) == Color::Empty
    }
}

/// A stone of one of the chains of `color` next to `p`.
pub open spec fn joined_stone(b: BoardView, p: Coord, color: Color, x: Coord) -> bool {
    inside(x, b.size) && exists|q: Coord|
        inside(q, b.size) && #[trigger] adjacent(p, q) && point_color(b, q) == color && in_chain(
            b.cells,
            b.size,
            q,
            x,
        )
}

} // verus!
