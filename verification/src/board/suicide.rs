//! The suicide test that decides legality looks only at the neighbours of
//! the point; it agrees with what the play would leave on the board.
use vstd::prelude::*;

use super::coord::adjacent;
use super::coord::index_of;
use super::coord::inside;
use super::opposite_color;
use super::position::color_at;
use super::position::count_in_row;
use super::position::count_in_rows;
use super::position::count_points;
use super::position::has_liberty;
use super::position::in_chain;
use super::position::is_liberty;
use super::position::lemma_chain_color;
use super::position::lemma_chain_start;
use super::position::lemma_chain_step;
use super::position::lemma_chain_transitive;
use super::position::lemma_coord_of_index;
use super::position::lemma_count_points_zero;
use super::position::lemma_index_bounds;
use super::position::lemma_index_injective;
use super::position::linked;
use super::position::reach_within;
use super::position::liberty_count;
use super::rules::after_capture;
use super::rules::captured;
use super::rules::captures;
use super::rules::is_suicide;
use super::rules::placed;
use super::rules::point_color;
use super::rules::BoardView;
use super::Color;
use super::Coord;

verus! {

/// Counting the points of a row that satisfy `pred` counts `a` once more
/// than counting them without `a`.
proof fn lemma_row_without(pred: spec_fn(Coord) -> bool, a: Coord, r: int, col: int)
    requires
        0 <= col <= 255,
        1 <= r <= 255,
        pred(a),
    ensures
        count_in_row(pred, r, col) == count_in_row(|x: Coord| pred(x) && x != a, r, col) + if a.row == r
            && 1 <= a.col <= col {
            1nat
        } else {
            0nat
        },
    decreases col,
{
    if col > 0 {
        lemma_row_without(pred, a, r, col - 1);
        let p = Coord { col: col as u8, row: r as u8 };
        if p == a {
            assert(a.row == r && a.col == col);
        } else if a.row == r && a.col == col {
            assert(p == a);
        }
    }
}

proof fn lemma_rows_without(pred: spec_fn(Coord) -> bool, a: Coord, size: int, rows: int)
    requires
        0 <= size <= 255,
        0 <= rows <= 255,
        pred(a),
    ensures
        count_in_rows(pred, size, rows) == count_in_rows(|x: Coord| pred(x) && x != a, size, rows) + if 1
            <= a.row <= rows && 1 <= a.col <= size {
            1nat
        } else {
            0nat
        },
    decreases rows,
{
    if rows > 0 {
        lemma_rows_without(pred, a, size, rows - 1);
        lemma_row_without(pred, a, rows, size);
    }
}

/// Two different points of the board that satisfy `pred` count twice.
pub proof fn lemma_count_two(pred: spec_fn(Coord) -> bool, size: int, a: Coord, b: Coord)
    requires
        0 <= size <= 255,
        inside(a, size),
        inside(b, size),
        a != b,
        pred(a),
        pred(b),
    ensures
        count_points(pred, size) >= 2,
{
    let rest = |x: Coord| pred(x) && x != a;
    lemma_rows_without(pred, a, size, size);
    lemma_count_points_zero(rest, size);
    assert(rest(b));
}

/// A count of at most one leaves no point but `a` satisfying `pred`.
pub proof fn lemma_count_at_most_one(pred: spec_fn(Coord) -> bool, size: int, a: Coord, b: Coord)
    requires
        0 <= size <= 255,
        inside(a, size),
        inside(b, size),
        pred(a),
        pred(b),
        count_points(pred, size) <= 1,
    ensures
        a == b,
{
    if a != b {
        lemma_count_two(pred, size, a, b);
    }
}

/// A chain stays a chain where the points of its colour keep it.
proof fn lemma_chain_transfer(
    from: Seq<Color>,
    to: Seq<Color>,
    size: int,
    a: Coord,
    x: Coord,
    color: Color,
    n: nat,
)
    requires
        reach_within(from, size, a, x, n),
        color_at(from, size, a) == color,
        forall|y: Coord| inside(y, size) && color_at(from, size, y) == color ==> #[trigger] color_at(to, size, y) == color,
    ensures
        in_chain(to, size, a, x),
    decreases n,
{
    if n == 0 {
        lemma_chain_start(to, size, a);
    } else if reach_within(from, size, a, x, (n - 1) as nat) {
        lemma_chain_transfer(from, to, size, a, x, color, (n - 1) as nat);
    } else {
        let y = choose|y: Coord| #[trigger] linked(from, size, y, x) && reach_within(from, size, a, y, (n - 1) as nat);
        lemma_chain_transfer(from, to, size, a, y, color, (n - 1) as nat);
        super::position::lemma_reach_color(from, size, a, y, (n - 1) as nat);
        assert(color_at(to, size, y) == color);
        assert(color_at(to, size, x) == color);
        assert(linked(to, size, y, x));
        lemma_chain_step(to, size, a, y, x);
    }
}

/// The same, for a chain given by membership.
proof fn lemma_chain_moves(from: Seq<Color>, to: Seq<Color>, size: int, a: Coord, x: Coord, color: Color)
    requires
        in_chain(from, size, a, x),
        color_at(from, size, a) == color,
        forall|y: Coord| inside(y, size) && color_at(from, size, y) == color ==> #[trigger] color_at(to, size, y) == color,
    ensures
        in_chain(to, size, a, x),
{
    let n = choose|n: nat| #[trigger] reach_within(from, size, a, x, n);
    lemma_chain_transfer(from, to, size, a, x, color, n);
}

/// Off the point played, the board keeps its colours.
proof fn lemma_placed_elsewhere(b: BoardView, p: Coord, c: Color, y: Coord)
    requires
        0 <= b.size <= 255,
        b.cells.len() == b.size * b.size,
        inside(p, b.size),
        inside(y, b.size),
        y != p,
    ensures
        color_at(placed(b, p, c), b.size, y) == color_at(b.cells, b.size, y),
{
    lemma_index_bounds(p, b.size);
    lemma_index_bounds(y, b.size);
    if index_of(y, b.size) == index_of(p, b.size) {
        lemma_index_injective(y, p, b.size);
    }
}

/// The chain of the stone just placed is that stone and the chains of its
/// own colour next to it.
proof fn lemma_placed_chain(b: BoardView, p: Coord, c: Color, x: Coord, n: nat)
    requires
        0 <= b.size <= 255,
        b.cells.len() == b.size * b.size,
        inside(p, b.size),
        point_color(b, p) == Color::Empty,
        c != Color::Empty,
        reach_within(placed(b, p, c), b.size, p, x, n),
    ensures
        x == p || exists|q: Coord|
            inside(q, b.size) && #[trigger] adjacent(p, q) && point_color(b, q) == c && in_chain(b.cells, b.size, q, x),
    decreases n,
{
    let c1 = placed(b, p, c);
    lemma_index_bounds(p, b.size);
    assert(color_at(c1, b.size, p) == c);
    if n > 0 {
        if reach_within(c1, b.size, p, x, (n - 1) as nat) {
            lemma_placed_chain(b, p, c, x, (n - 1) as nat);
        } else {
            let y = choose|y: Coord| #[trigger] linked(c1, b.size, y, x) && reach_within(c1, b.size, p, y, (n - 1) as nat);
            lemma_placed_chain(b, p, c, y, (n - 1) as nat);
            super::position::lemma_reach_color(c1, b.size, p, y, (n - 1) as nat);
            if x != p {
                lemma_placed_elsewhere(b, p, c, x);
                if y == p {
                    lemma_chain_start(b.cells, b.size, x);
                    assert(inside(x, b.size) && adjacent(p, x) && point_color(b, x) == c && in_chain(b.cells, b.size, x, x));
                } else {
                    let q = choose|q: Coord|
                        inside(q, b.size) && #[trigger] adjacent(p, q) && point_color(b, q) == c && in_chain(
                            b.cells,
                            b.size,
                            q,
                            y,
                        );
                    lemma_placed_elsewhere(b, p, c, y);
                    assert(linked(b.cells, b.size, y, x));
                    lemma_chain_step(b.cells, b.size, q, y, x);
                }
            }
        }
    }
}

/// The test for suicide, which looks at the neighbours of the point only,
/// holds exactly when the stone's chain would have no liberty once the
/// opposing chains it captures are removed.
pub proof fn lemma_suicide_test_exact(b: BoardView, p: Coord, c: Color)
    requires
        0 <= b.size <= 255,
        b.cells.len() == b.size * b.size,
        inside(p, b.size),
        point_color(b, p) == Color::Empty,
        c != Color::Empty,
    ensures
        is_suicide(b, p, c) <==> !has_liberty(after_capture(b, p, c), b.size, p),
{
    let size = b.size;
    let cells = b.cells;
    let opp = opposite_color(c);
    let c1 = placed(b, p, c);
    let c2 = after_capture(b, p, c);
    lemma_index_bounds(p, size);
    lemma_coord_of_index(p, size);
    assert(color_at(c1, size, p) == c);
    // the point played is not captured, so it keeps its stone
    if captured(c1, size, p, c, p) {
        let q = choose|q: Coord| #[trigger] captures(c1, size, p, c, q) && in_chain(c1, size, q, p);
        lemma_chain_color(c1, size, q, p);
    }
    assert(color_at(c2, size, p) == c);
    lemma_chain_start(c2, size, p);
    if is_suicide(b, p, c) {
        // no opposing neighbour is captured
        assert forall|x: Coord| !captured(c1, size, p, c, x) by {
            if captured(c1, size, p, c, x) {
                let q = choose|q: Coord| #[trigger] captures(c1, size, p, c, q) && in_chain(c1, size, q, x);
                lemma_placed_elsewhere(b, p, c, q);
                assert(liberty_count(cells, size, q) > 1);
                let libs = |l: Coord| is_liberty(cells, size, q, l);
                let l = choose|l: Coord| inside(l, size) && libs(l) && l != p;
                assert(exists|l: Coord| inside(l, size) && libs(l) && l != p) by {
                    lemma_count_points_zero(libs, size);
                    let l1 = choose|l1: Coord| inside(l1, size) && #[trigger] libs(l1);
                    if l1 == p {
                        if forall|l2: Coord| inside(l2, size) && #[trigger] libs(l2) ==> l2 == p {
                            assert forall|l2: Coord| inside(l2, size) && libs(l2) implies l2 == p by {}
                            lemma_count_at_most_one_all(libs, size, p);
                        }
                    }
                }
                let xl = choose|xl: Coord| #[trigger] in_chain(cells, size, q, xl) && adjacent(xl, l);
                assert forall|y: Coord| inside(y, size) && color_at(cells, size, y) == opp implies #[trigger] color_at(
                    c1,
                    size,
                    y,
                ) == opp by {
                    lemma_placed_elsewhere(b, p, c, y);
                }
                lemma_chain_moves(cells, c1, size, q, xl, opp);
                lemma_placed_elsewhere(b, p, c, l);
                assert(is_liberty(c1, size, q, l));
            }
        }
        assert(c2 =~= c1);
        // nor does the new chain have a liberty
        if has_liberty(c2, size, p) {
            let l = choose|l: Coord| #[trigger] is_liberty(c2, size, p, l);
            let x = choose|x: Coord| #[trigger] in_chain(c2, size, p, x) && adjacent(x, l);
            let n = choose|n: nat| #[trigger] reach_within(c1, size, p, x, n);
            lemma_placed_chain(b, p, c, x, n);
            assert(l != p);
            lemma_placed_elsewhere(b, p, c, l);
            if x == p {
                assert(point_color(b, l) != Color::Empty);
            } else {
                let q = choose|q: Coord|
                    inside(q, size) && #[trigger] adjacent(p, q) && point_color(b, q) == c && in_chain(cells, size, q, x);
                let libs = |z: Coord| is_liberty(cells, size, q, z);
                assert(libs(l));
                lemma_chain_start(cells, size, q);
                assert(libs(p));
                assert(liberty_count(cells, size, q) <= 1);
                lemma_count_at_most_one(libs, size, l, p);
            }
        }
    } else {
        if exists|q: Coord| inside(q, size) && #[trigger] adjacent(p, q) && point_color(b, q) == Color::Empty {
            let q = choose|q: Coord| inside(q, size) && #[trigger] adjacent(p, q) && point_color(b, q) == Color::Empty;
            lemma_placed_elsewhere(b, p, c, q);
            lemma_coord_of_index(q, size);
            lemma_index_bounds(q, size);
            assert(color_at(c2, size, q) == Color::Empty);
            assert(is_liberty(c2, size, p, q));
        } else if exists|q: Coord|
            inside(q, size) && #[trigger] adjacent(p, q) && point_color(b, q) == opp && liberty_count(cells, size, q) <= 1 {
            let q = choose|q: Coord|
                inside(q, size) && #[trigger] adjacent(p, q) && point_color(b, q) == opp && liberty_count(cells, size, q) <= 1;
            lemma_placed_elsewhere(b, p, c, q);
            // the opposing chain loses its last liberty
            if has_liberty(c1, size, q) {
                let l = choose|l: Coord| #[trigger] is_liberty(c1, size, q, l);
                let xl = choose|xl: Coord| #[trigger] in_chain(c1, size, q, xl) && adjacent(xl, l);
                assert(l != p);
                lemma_placed_elsewhere(b, p, c, l);
                assert forall|y: Coord| inside(y, size) && color_at(c1, size, y) == opp implies #[trigger] color_at(
                    cells,
                    size,
                    y,
                ) == opp by {
                    if y != p {
                        lemma_placed_elsewhere(b, p, c, y);
                    }
                }
                lemma_chain_moves(c1, cells, size, q, xl, opp);
                let libs = |z: Coord| is_liberty(cells, size, q, z);
                assert(libs(l));
                lemma_chain_start(cells, size, q);
                assert(libs(p));
                lemma_count_at_most_one(libs, size, l, p);
            }
            lemma_chain_start(c1, size, q);
            assert(captures(c1, size, p, c, q));
            assert(captured(c1, size, p, c, q));
            lemma_coord_of_index(q, size);
            lemma_index_bounds(q, size);
            assert(color_at(c2, size, q) == Color::Empty);
            assert(is_liberty(c2, size, p, q));
        } else {
            let q = choose|q: Coord|
                inside(q, size) && #[trigger] adjacent(p, q) && point_color(b, q) == c && liberty_count(cells, size, q) > 1;
            lemma_placed_elsewhere(b, p, c, q);
            let libs = |z: Coord| is_liberty(cells, size, q, z);
            assert(exists|l: Coord| inside(l, size) && libs(l) && l != p) by {
                lemma_count_points_zero(libs, size);
                let l1 = choose|l1: Coord| inside(l1, size) && #[trigger] libs(l1);
                if forall|l2: Coord| inside(l2, size) && #[trigger] libs(l2) ==> l2 == p {
                    lemma_count_at_most_one_all(libs, size, p);
                }
            }
            let l = choose|l: Coord| inside(l, size) && libs(l) && l != p;
            let xl = choose|xl: Coord| #[trigger] in_chain(cells, size, q, xl) && adjacent(xl, l);
            // the own chain joins the new stone and keeps the liberty
            assert forall|y: Coord| inside(y, size) && color_at(cells, size, y) == c implies #[trigger] color_at(
                c1,
                size,
                y,
            ) == c by {
                if y != p {
                    lemma_placed_elsewhere(b, p, c, y);
                }
            }
            lemma_chain_moves(cells, c1, size, q, xl, c);
            lemma_chain_start(c1, size, p);
            assert(linked(c1, size, p, q));
            lemma_chain_step(c1, size, p, p, q);
            lemma_chain_transitive(c1, size, p, q, xl);
            assert forall|y: Coord| inside(y, size) && color_at(c1, size, y) == c implies #[trigger] color_at(
                c2,
                size,
                y,
            ) == c by {
                lemma_coord_of_index(y, size);
                lemma_index_bounds(y, size);
                if captured(c1, size, p, c, y) {
                    let q2 = choose|q2: Coord| #[trigger] captures(c1, size, p, c, q2) && in_chain(c1, size, q2, y);
                    lemma_chain_color(c1, size, q2, y);
                }
            }
            lemma_chain_moves(c1, c2, size, p, xl, c);
            lemma_placed_elsewhere(b, p, c, l);
            lemma_coord_of_index(l, size);
            lemma_index_bounds(l, size);
            assert(color_at(c2, size, l) == Color::Empty);
            assert(is_liberty(c2, size, p, l));
        }
    }
}

/// A count of more than one has a point other than `a`.
proof fn lemma_count_at_most_one_all(pred: spec_fn(Coord) -> bool, size: int, a: Coord)
    requires
        0 <= size <= 255,
        forall|x: Coord| inside(x, size) && #[trigger] pred(x) ==> x == a,
    ensures
        count_points(pred, size) <= 1,
{
    if inside(a, size) && pred(a) {
        let rest = |x: Coord| pred(x) && x != a;
        lemma_rows_without(pred, a, size, size);
        lemma_count_points_zero(rest, size);
    } else {
        lemma_count_points_zero(pred, size);
    }
}

} // verus!
