//! Properties of the rules that hold on every board.
use vstd::prelude::*;

use super::coord::adjacent;
use super::coord::diagonal_candidates;
use super::coord::inside;
use super::coord::inside_only;
use super::rules::count_matching;
use super::movement::move_color;
use super::movement::move_coord;
use super::opposite_color;
use super::position::collect_points;
use super::position::has_liberty;
use super::position::lemma_chain_color;
use super::position::lemma_coord_of_index;
use super::position::lemma_index_bounds;
use super::rules::after_capture;
use super::rules::captured;
use super::rules::placed;
use super::position::lemma_collect_points_members;
use super::rules::eye;
use super::rules::game_over;
use super::rules::legal_plays;
use super::rules::legal_plays_without_eyes;
use super::rules::legality;
use super::rules::next_color;
use super::rules::play_result;
use super::rules::playable;
use super::rules::point_color;
use super::rules::winner_of;
use super::rules::BoardView;
use super::Color;
use super::Coord;
use super::Move;

verus! {

/// One if the point holds a stone of the opponent of `color`, else zero.
pub open spec fn opposing_at(b: BoardView, p: Coord, color: Color) -> int {
    if point_color(b, p) == opposite_color(color) {
        1
    } else {
        0
    }
}

/// A point away from the edge whose four neighbours along the lines all
/// hold `color`, and at most one of whose four diagonal points holds an
/// opposing stone, is an eye of `color`.
pub proof fn lemma_interior_eye(b: BoardView, p: Coord, color: Color)
    requires
        b.size <= 255,
        2 <= p.col,
        p.col + 1 <= b.size,
        2 <= p.row,
        p.row + 1 <= b.size,
        point_color(b, Coord { col: (p.col - 1) as u8, row: p.row }) == color,
        point_color(b, Coord { col: (p.col + 1) as u8, row: p.row }) == color,
        point_color(b, Coord { col: p.col, row: (p.row - 1) as u8 }) == color,
        point_color(b, Coord { col: p.col, row: (p.row + 1) as u8 }) == color,
        opposing_at(b, Coord { col: (p.col - 1) as u8, row: (p.row - 1) as u8 }, color) + opposing_at(
            b,
            Coord { col: (p.col + 1) as u8, row: (p.row - 1) as u8 },
            color,
        ) + opposing_at(b, Coord { col: (p.col + 1) as u8, row: (p.row + 1) as u8 }, color) + opposing_at(
            b,
            Coord { col: (p.col - 1) as u8, row: (p.row + 1) as u8 },
            color,
        ) <= 1,
    ensures
        eye(b, p, color),
{
    let d = diagonal_candidates(p);
    reveal_with_fuel(inside_only, 5);
    assert(d.drop_last().drop_last().drop_last().drop_last() =~= Seq::<Coord>::empty());
    assert(inside_only(d, b.size) =~= d);
    let pred = |q: Coord| point_color(b, q) == opposite_color(color);
    reveal_with_fuel(count_matching, 5);
    assert(count_matching(d, pred) == opposing_at(b, d[0], color) + opposing_at(b, d[1], color) + opposing_at(
        b,
        d[2],
        color,
    ) + opposing_at(b, d[3], color));
    assert forall|q: Coord| inside(q, b.size) && #[trigger] adjacent(p, q) implies point_color(b, q) == color by {
        if q.col == p.col && q.row + 1 == p.row {
            assert(q == Coord { col: p.col, row: (p.row - 1) as u8 });
        } else if q.col == p.col {
            assert(q == Coord { col: p.col, row: (p.row + 1) as u8 });
        } else if q.col + 1 == p.col {
            assert(q == Coord { col: (p.col - 1) as u8, row: p.row });
        } else {
            assert(q == Coord { col: (p.col + 1) as u8, row: p.row });
        }
    }
}

/// A point away from the edge is no eye of `color` when one of its four
/// neighbours along the lines holds anything else, or when two or more of
/// its four diagonal points hold opposing stones.
pub proof fn lemma_interior_non_eye(b: BoardView, p: Coord, color: Color)
    requires
        b.size <= 255,
        2 <= p.col,
        p.col + 1 <= b.size,
        2 <= p.row,
        p.row + 1 <= b.size,
        ({
            ||| point_color(b, Coord { col: (p.col - 1) as u8, row: p.row }) != color
            ||| point_color(b, Coord { col: (p.col + 1) as u8, row: p.row }) != color
            ||| point_color(b, Coord { col: p.col, row: (p.row - 1) as u8 }) != color
            ||| point_color(b, Coord { col: p.col, row: (p.row + 1) as u8 }) != color
            ||| opposing_at(b, Coord { col: (p.col - 1) as u8, row: (p.row - 1) as u8 }, color) + opposing_at(
                b,
                Coord { col: (p.col + 1) as u8, row: (p.row - 1) as u8 },
                color,
            ) + opposing_at(b, Coord { col: (p.col + 1) as u8, row: (p.row + 1) as u8 }, color) + opposing_at(
                b,
                Coord { col: (p.col - 1) as u8, row: (p.row + 1) as u8 },
                color,
            ) >= 2
        }),
    ensures
        !eye(b, p, color),
{
    let d = diagonal_candidates(p);
    reveal_with_fuel(inside_only, 5);
    assert(d.drop_last().drop_last().drop_last().drop_last() =~= Seq::<Coord>::empty());
    assert(inside_only(d, b.size) =~= d);
    let pred = |q: Coord| point_color(b, q) == opposite_color(color);
    reveal_with_fuel(count_matching, 5);
    assert(count_matching(d, pred) == opposing_at(b, d[0], color) + opposing_at(b, d[1], color) + opposing_at(
        b,
        d[2],
        color,
    ) + opposing_at(b, d[3], color));
    let w = Coord { col: (p.col - 1) as u8, row: p.row };
    let e = Coord { col: (p.col + 1) as u8, row: p.row };
    let s_ = Coord { col: p.col, row: (p.row - 1) as u8 };
    let n = Coord { col: p.col, row: (p.row + 1) as u8 };
    assert(inside(w, b.size) && adjacent(p, w));
    assert(inside(e, b.size) && adjacent(p, e));
    assert(inside(s_, b.size) && adjacent(p, s_));
    assert(inside(n, b.size) && adjacent(p, n));
}

/// A pass leaves every stone where it was and keeps the ko point.
pub proof fn lemma_pass_keeps_stones(b: BoardView, c: Color)
    ensures
        play_result(b, Move::Pass(c)).cells == b.cells,
        play_result(b, Move::Pass(c)).ko == b.ko,
{
}

/// Two passes in a row after any other move end the game.
pub proof fn lemma_two_passes_end_game(b: BoardView, c1: Color, c2: Color)
    requires
        b.consecutive_passes == 0,
    ensures
        game_over(play_result(play_result(b, Move::Pass(c1)), Move::Pass(c2))),
{
}

/// A resignation ends the game, and the other player wins it.
pub proof fn lemma_resign_ends_game(b: BoardView, c: Color)
    requires
        c != Color::Empty,
    ensures
        game_over(play_result(b, Move::Resign(c))),
        winner_of(play_result(b, Move::Resign(c))) == opposite_color(c),
{
}

/// A legal play leaves its stone on the point played unless the stone's
/// chain has no liberty once the captures are made (a suicide), and it
/// clears every stone of the opposing chains it captures.
pub proof fn lemma_play_places_and_captures(b: BoardView, c: Color, col: u8, row: u8)
    requires
        0 <= b.size <= 255,
        b.cells.len() == b.size * b.size,
        c != Color::Empty,
        legality(b, Move::Play(c, col, row)) is Ok,
    ensures
        ({
            let p = Coord { col, row };
            let after = play_result(b, Move::Play(c, col, row));
            &&& has_liberty(after_capture(b, p, c), b.size, p) ==> point_color(after, p) == c
            &&& forall|x: Coord|
                inside(x, b.size) && #[trigger] captured(placed(b, p, c), b.size, p, c, x) ==> point_color(
                    after,
                    x,
                ) == Color::Empty
        }),
{
    let p = Coord { col, row };
    let c1 = placed(b, p, c);
    let after = play_result(b, Move::Play(c, col, row));
    lemma_index_bounds(p, b.size);
    lemma_coord_of_index(p, b.size);
    assert(c1[super::coord::index_of(p, b.size)] == c);
    if captured(c1, b.size, p, c, p) {
        let q = choose|q: Coord| #[trigger] super::rules::captures(c1, b.size, p, c, q) && super::position::in_chain(
            c1,
            b.size,
            q,
            p,
        );
        lemma_chain_color(c1, b.size, q, p);
    }
    assert forall|x: Coord| inside(x, b.size) && #[trigger] captured(c1, b.size, p, c, x) implies point_color(
        after,
        x,
    ) == Color::Empty by {
        lemma_index_bounds(x, b.size);
        lemma_coord_of_index(x, b.size);
        if !has_liberty(after_capture(b, p, c), b.size, p) {
            assert(after_capture(b, p, c)[super::coord::index_of(x, b.size)] == Color::Empty);
        }
    }
}

/// The stones a play removes are each listed once, its own as the
/// opponent's.
pub proof fn lemma_removed_stones_distinct(b: BoardView, m: Move)
    requires
        0 <= b.size <= 255,
        b.adv_stones_removed.no_duplicates(),
        b.friend_stones_removed.no_duplicates(),
    ensures
        play_result(b, m).adv_stones_removed.no_duplicates(),
        play_result(b, m).friend_stones_removed.no_duplicates(),
{
    if let Move::Play(c, col, row) = m {
        let p = Coord { col, row };
        let c1 = placed(b, p, c);
        let c2 = after_capture(b, p, c);
        super::position::lemma_collect_points_distinct(|x: Coord| captured(c1, b.size, p, c, x), b.size);
        super::position::lemma_collect_points_distinct(|x: Coord| super::position::in_chain(c2, b.size, p, x), b.size);
    }
}

/// Under rules that forbid suicide no legal play removes its own stones, so
/// no own stone is ever listed as removed.
pub proof fn lemma_no_suicide_removes_no_own_stone(b: BoardView, m: Move)
    requires
        0 <= b.size <= 255,
        b.cells.len() == b.size * b.size,
        move_color(m) != Color::Empty,
        !crate::ruleset::allows_suicide(b.ruleset),
        legality(b, m) is Ok,
        b.friend_stones_removed.len() == 0,
    ensures
        play_result(b, m).friend_stones_removed.len() == 0,
{
    if let Move::Play(c, col, row) = m {
        let p = Coord { col, row };
        super::suicide::lemma_suicide_test_exact(b, p, c);
    }
}

/// The legal plays of a board are exactly the plays of the player to move
/// on vacant points that the rules allow, as long as the game goes on.
pub proof fn lemma_legal_plays_exact(b: BoardView)
    requires
        0 <= b.size <= 255,
    ensures
        forall|i: int|
            0 <= i < legal_plays(b).len() ==> {
                let m = #[trigger] legal_plays(b)[i];
                &&& m is Play
                &&& move_color(m) == next_color(b)
                &&& inside(move_coord(m), b.size)
                &&& point_color(b, move_coord(m)) == Color::Empty
                &&& legality(b, m) is Ok
            },
        forall|p: Coord|
            inside(p, b.size) && !game_over(b) && #[trigger] playable(b, next_color(b), p) ==> legal_plays(b).contains(
                Move::Play(next_color(b), p.col, p.row),
            ),
{
    let nc = next_color(b);
    let pred = |c: Coord| playable(b, nc, c);
    lemma_collect_points_members(pred, b.size);
    let pts = collect_points(pred, b.size);
    if !game_over(b) {
        assert forall|i: int| 0 <= i < legal_plays(b).len() implies {
            let m = #[trigger] legal_plays(b)[i];
            &&& m is Play
            &&& move_color(m) == next_color(b)
            &&& inside(move_coord(m), b.size)
            &&& point_color(b, move_coord(m)) == Color::Empty
            &&& legality(b, m) is Ok
        } by {
            assert(pred(pts[i]));
            assert(Coord { col: pts[i].col, row: pts[i].row } == pts[i]);
        }
        assert forall|p: Coord| inside(p, b.size) && #[trigger] playable(b, nc, p) implies legal_plays(b).contains(
            Move::Play(nc, p.col, p.row),
        ) by {
            assert(pred(p));
            let k = choose|k: int| 0 <= k < pts.len() && pts[k] == p;
            assert(legal_plays(b)[k] == Move::Play(nc, p.col, p.row));
        }
    }
}

/// Every play that fills no own eye is among the legal plays, and none of
/// them fills an eye of the player to move.
pub proof fn lemma_eyeless_plays_are_legal(b: BoardView)
    requires
        0 <= b.size <= 255,
    ensures
        forall|i: int|
            0 <= i < legal_plays_without_eyes(b).len() ==> legal_plays(b).contains(
                #[trigger] legal_plays_without_eyes(b)[i],
            ) && !eye(b, move_coord(legal_plays_without_eyes(b)[i]), next_color(b)),
{
    let nc = next_color(b);
    let pred = |c: Coord| playable(b, nc, c) && !eye(b, c, nc);
    lemma_collect_points_members(pred, b.size);
    lemma_legal_plays_exact(b);
    let pts = collect_points(pred, b.size);
    if !game_over(b) {
        assert forall|i: int| 0 <= i < legal_plays_without_eyes(b).len() implies legal_plays(b).contains(
            #[trigger] legal_plays_without_eyes(b)[i],
        ) && !eye(b, move_coord(legal_plays_without_eyes(b)[i]), next_color(b)) by {
            let p = pts[i];
            assert(pred(p));
            assert(playable(b, nc, p));
            assert(legal_plays_without_eyes(b)[i] == Move::Play(nc, p.col, p.row));
        }
    }
}

} // verus!
