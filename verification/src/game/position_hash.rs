//! The hash of a position as the keys of its stones combined, and the fact
//! that a move updates it incrementally.
use vstd::prelude::*;

use super::hash::stone_key;
use super::hash::stone_toggled;
use super::hash::StoneKeys;
use super::zobrist_hash_table::next_hash;
use super::zobrist_hash_table::stones_toggled;
use crate::board::coord::index_of;
use crate::board::coord::inside;
use crate::board::position::collect_in_col;
use crate::board::position::collect_in_cols;
use crate::board::position::collect_points;
use crate::board::position::color_at;
use crate::board::position::coord_of;
use crate::board::position::lemma_coord_of_index;
use crate::board::position::lemma_index_bounds;
use crate::board::position::remove_where;
use crate::board::Color;
use crate::board::Coord;
use crate::board::Move;
use crate::board::movement::move_color;
use crate::board::opposite_color;
use crate::board::position::has_liberty;
use crate::board::position::in_chain;
use crate::board::position::lemma_chain_color;
use crate::board::position::lemma_collect_points_members;
use crate::board::rules::after_capture;
use crate::board::rules::captured;
use crate::board::rules::captures;
use crate::board::rules::legality;
use crate::board::rules::placed;
use crate::board::rules::play_result;
use crate::board::rules::BoardView;

verus! {

/// The key of what stands on `p`: the key of its stone, nothing if vacant.
pub open spec fn point_key(k: StoneKeys, cells: Seq<Color>, p: Coord) -> u64 {
    stone_key(k, Move::Play(color_at(cells, k.size, p), p.col, p.row))
}

/// The keys of what stands on the points of `s`, combined.
pub open spec fn keys_of(k: StoneKeys, cells: Seq<Color>, s: Seq<Coord>) -> u64
    decreases s.len(),
{
    if s.len() == 0 {
        0
    } else {
        keys_of(k, cells, s.drop_last()) ^ point_key(k, cells, s.last())
    }
}

/// Every point of the board.
pub open spec fn all_points(size: int) -> Seq<Coord> {
    collect_points(|p: Coord| true, size)
}

/// The hash of a position: the keys of all its stones combined.
pub open spec fn position_hash(k: StoneKeys, cells: Seq<Color>) -> u64 {
    keys_of(k, cells, all_points(k.size))
}

/// Combining two runs of points combines their keys.
pub proof fn lemma_keys_of_concat(k: StoneKeys, cells: Seq<Color>, s: Seq<Coord>, t: Seq<Coord>)
    ensures
        keys_of(k, cells, s + t) == keys_of(k, cells, s) ^ keys_of(k, cells, t),
    decreases t.len(),
{
    if t.len() == 0 {
        assert(s + t =~= s);
        let a = keys_of(k, cells, s);
        assert(a ^ 0u64 == a) by (bit_vector);
    } else {
        lemma_keys_of_concat(k, cells, s, t.drop_last());
        assert((s + t).drop_last() =~= s + t.drop_last());
        assert((s + t).last() == t.last());
        let a = keys_of(k, cells, s);
        let b = keys_of(k, cells, t.drop_last());
        let x = point_key(k, cells, t.last());
        assert((a ^ b) ^ x == a ^ (b ^ x)) by (bit_vector);
    }
}

/// What a point adds to the hash once the points of `dead` are cleared.
proof fn lemma_point_after_removal(k: StoneKeys, cells: Seq<Color>, dead: spec_fn(Coord) -> bool, p: Coord)
    requires
        inside(p, k.size),
        cells.len() == k.size * k.size,
    ensures
        point_key(k, remove_where(cells, k.size, dead), p) == if dead(p) {
            0u64
        } else {
            point_key(k, cells, p)
        },
{
    lemma_coord_of_index(p, k.size);
}

/// Clearing the points of column `c` that satisfy `dead` takes their keys
/// out of the column's hash.
proof fn lemma_column_split(k: StoneKeys, cells: Seq<Color>, dead: spec_fn(Coord) -> bool, c: int, rows: int)
    requires
        0 <= k.size <= 255,
        cells.len() == k.size * k.size,
        1 <= c <= k.size,
        rows <= k.size,
    ensures
        keys_of(k, cells, collect_in_col(|p: Coord| true, c, rows)) == keys_of(
            k,
            remove_where(cells, k.size, dead),
            collect_in_col(|p: Coord| true, c, rows),
        ) ^ keys_of(k, cells, collect_in_col(dead, c, rows)),
    decreases rows,
{
    let rw = remove_where(cells, k.size, dead);
    let all = |p: Coord| true;
    if rows <= 0 {
        assert(0u64 == 0u64 ^ 0u64) by (bit_vector);
    } else {
        lemma_column_split(k, cells, dead, c, rows - 1);
        let p = Coord { col: c as u8, row: rows as u8 };
        lemma_point_after_removal(k, cells, dead, p);
        let a_prev = keys_of(k, cells, collect_in_col(all, c, rows - 1));
        let r_prev = keys_of(k, rw, collect_in_col(all, c, rows - 1));
        let d_prev = keys_of(k, cells, collect_in_col(dead, c, rows - 1));
        let kc = point_key(k, cells, p);
        assert(collect_in_col(all, c, rows) == collect_in_col(all, c, rows - 1).push(p));
        assert(collect_in_col(all, c, rows).drop_last() =~= collect_in_col(all, c, rows - 1));
        if dead(p) {
            assert(collect_in_col(dead, c, rows).drop_last() =~= collect_in_col(dead, c, rows - 1));
            assert(a_prev == r_prev ^ d_prev ==> a_prev ^ kc == (r_prev ^ 0u64) ^ (d_prev ^ kc)) by (bit_vector);
        } else {
            assert(a_prev == r_prev ^ d_prev ==> a_prev ^ kc == (r_prev ^ kc) ^ d_prev) by (bit_vector);
        }
    }
}

/// Clearing the points of the first columns that satisfy `dead` takes
/// their keys out of the hash of those columns.
proof fn lemma_columns_split(k: StoneKeys, cells: Seq<Color>, dead: spec_fn(Coord) -> bool, cols: int)
    requires
        0 <= k.size <= 255,
        cells.len() == k.size * k.size,
        cols <= k.size,
    ensures
        keys_of(k, cells, collect_in_cols(|p: Coord| true, k.size, cols)) == keys_of(
            k,
            remove_where(cells, k.size, dead),
            collect_in_cols(|p: Coord| true, k.size, cols),
        ) ^ keys_of(k, cells, collect_in_cols(dead, k.size, cols)),
    decreases cols,
{
    let rw = remove_where(cells, k.size, dead);
    let all = |p: Coord| true;
    if cols <= 0 {
        assert(0u64 == 0u64 ^ 0u64) by (bit_vector);
    } else {
        lemma_columns_split(k, cells, dead, cols - 1);
        lemma_column_split(k, cells, dead, cols, k.size);
        let ap = collect_in_cols(all, k.size, cols - 1);
        let ac = collect_in_col(all, cols, k.size);
        let dp = collect_in_cols(dead, k.size, cols - 1);
        let dc = collect_in_col(dead, cols, k.size);
        lemma_keys_of_concat(k, cells, ap, ac);
        lemma_keys_of_concat(k, rw, ap, ac);
        lemma_keys_of_concat(k, cells, dp, dc);
        let a1 = keys_of(k, cells, ap);
        let a2 = keys_of(k, cells, ac);
        let r1 = keys_of(k, rw, ap);
        let r2 = keys_of(k, rw, ac);
        let d1 = keys_of(k, cells, dp);
        let d2 = keys_of(k, cells, dc);
        assert(a1 == r1 ^ d1 && a2 == r2 ^ d2 ==> a1 ^ a2 == (r1 ^ r2) ^ (d1 ^ d2)) by (bit_vector);
    }
}

/// Clearing the points that satisfy `dead` takes their keys out of the hash
/// of the position.
pub proof fn lemma_removal_hash(k: StoneKeys, cells: Seq<Color>, dead: spec_fn(Coord) -> bool)
    requires
        0 <= k.size <= 255,
        cells.len() == k.size * k.size,
    ensures
        position_hash(k, cells) == position_hash(k, remove_where(cells, k.size, dead)) ^ keys_of(
            k,
            cells,
            collect_points(dead, k.size),
        ),
{
    lemma_columns_split(k, cells, dead, k.size);
}

/// The points of a board with no stones add nothing to a hash.
pub proof fn lemma_vacant_keys(k: StoneKeys, cells: Seq<Color>, s: Seq<Coord>)
    requires
        forall|i: int| 0 <= i < s.len() ==> color_at(cells, k.size, #[trigger] s[i]) == Color::Empty,
    ensures
        keys_of(k, cells, s) == 0,
    decreases s.len(),
{
    if s.len() > 0 {
        lemma_vacant_keys(k, cells, s.drop_last());
        assert(color_at(cells, k.size, s[s.len() - 1]) == Color::Empty);
        assert(0u64 ^ 0u64 == 0u64) by (bit_vector);
    }
}

/// The empty board hashes to 0.
pub proof fn lemma_empty_board_hash(k: StoneKeys, cells: Seq<Color>)
    requires
        0 <= k.size <= 255,
        cells.len() == k.size * k.size,
        forall|i: int| 0 <= i < cells.len() ==> cells[i] == Color::Empty,
    ensures
        position_hash(k, cells) == 0,
{
    let pts = all_points(k.size);
    lemma_collect_points_members(|p: Coord| true, k.size);
    assert forall|i: int| 0 <= i < pts.len() implies color_at(cells, k.size, #[trigger] pts[i]) == Color::Empty by {
        lemma_index_bounds(pts[i], k.size);
    }
    lemma_vacant_keys(k, cells, pts);
}

/// Toggling the stones of `color` on points that hold that colour toggles
/// their keys in the position.
pub proof fn lemma_toggled_keys(k: StoneKeys, cells: Seq<Color>, hash: u64, color: Color, s: Seq<Coord>)
    requires
        forall|i: int| 0 <= i < s.len() ==> color_at(cells, k.size, #[trigger] s[i]) == color,
    ensures
        stones_toggled(k, hash, color, s) == hash ^ keys_of(k, cells, s),
    decreases s.len(),
{
    if s.len() == 0 {
        assert(hash ^ 0u64 == hash) by (bit_vector);
    } else {
        lemma_toggled_keys(k, cells, hash, color, s.drop_last());
        let x = s.last();
        assert(color_at(cells, k.size, s[s.len() - 1]) == color);
        let a = keys_of(k, cells, s.drop_last());
        let key = point_key(k, cells, x);
        assert((hash ^ a) ^ key == hash ^ (a ^ key)) by (bit_vector);
    }
}

/// Placing a stone on a vacant point adds its key to the hash.
pub proof fn lemma_place_hash(k: StoneKeys, cells: Seq<Color>, p: Coord, c: Color)
    requires
        0 <= k.size <= 255,
        cells.len() == k.size * k.size,
        inside(p, k.size),
        color_at(cells, k.size, p) == Color::Empty,
    ensures
        position_hash(k, cells.update(index_of(p, k.size), c)) == position_hash(k, cells) ^ stone_key(
            k,
            Move::Play(c, p.col, p.row),
        ),
{
    let size = k.size;
    let placed = cells.update(index_of(p, size), c);
    let only = |x: Coord| x == p;
    lemma_index_bounds(p, size);
    lemma_coord_of_index(p, size);
    assert(remove_where(placed, size, only) =~= cells) by {
        assert forall|i: int| 0 <= i < cells.len() implies remove_where(placed, size, only)[i] == cells[i] by {
            crate::board::position::lemma_index_of_coord(i, size);
            if coord_of(i, size) == p {
                assert(i == index_of(p, size));
            }
        }
    }
    lemma_removal_hash(k, placed, only);
    crate::board::position::lemma_collect_points_members(only, size);
    crate::board::position::lemma_collect_points_distinct(only, size);
    let pts = collect_points(only, size);
    assert(only(p));
    assert(pts.contains(p));
    assert(pts =~= seq![p]) by {
        let j = choose|j: int| 0 <= j < pts.len() && pts[j] == p;
        if pts.len() > 1 {
            let other = if j == 0 { 1int } else { 0int };
            assert(only(pts[other]));
            assert(pts[other] == pts[j]);
        }
        assert(pts.len() == 1);
    }
    assert(pts.drop_last() =~= Seq::<Coord>::empty());
    assert(pts.last() == p);
    assert(keys_of(k, placed, Seq::<Coord>::empty()) == 0u64);
    let h = position_hash(k, cells);
    let hp = position_hash(k, placed);
    let key = point_key(k, placed, p);
    assert(key == stone_key(k, Move::Play(c, p.col, p.row)));
    assert(keys_of(k, placed, pts) == 0u64 ^ key);
    assert(hp == h ^ (0u64 ^ key) ==> hp == h ^ key) by (bit_vector);
}

/// The hash that a play computes from the hash of the position before it
/// (its stone, the opposing stones it captures and, for a suicide, its own
/// removed stones) is the hash of the position after it, provided no own
/// stones are still listed as removed by an earlier suicide.
pub proof fn lemma_play_hash(k: StoneKeys, b: BoardView, c: Color, col: u8, row: u8)
    requires
        k.size == b.size,
        0 <= b.size <= 255,
        b.cells.len() == b.size * b.size,
        c != Color::Empty,
        legality(b, Move::Play(c, col, row)) is Ok,
        b.friend_stones_removed.len() == 0,
    ensures
        ({
            let m = Move::Play(c, col, row);
            let after = play_result(b, m);
            next_hash(k, position_hash(k, b.cells), m, after.adv_stones_removed, after.friend_stones_removed)
                == position_hash(k, after.cells)
        }),
{
    let size = b.size;
    let m = Move::Play(c, col, row);
    let p = Coord { col, row };
    let after = play_result(b, m);
    let c1 = placed(b, p, c);
    let c2 = after_capture(b, p, c);
    let capt = |x: Coord| captured(c1, size, p, c, x);
    let adv = collect_points(capt, size);
    let h0 = position_hash(k, b.cells);
    let key = stone_key(k, m);
    // the stone is placed on a vacant point
    lemma_place_hash(k, b.cells, p, c);
    assert(position_hash(k, c1) == h0 ^ key);
    lemma_index_bounds(p, size);
    assert(c1.len() == size * size);
    // the captured stones are taken off
    lemma_removal_hash(k, c1, capt);
    assert(c2 == remove_where(c1, size, capt));
    lemma_collect_points_members(capt, size);
    assert forall|i: int| 0 <= i < adv.len() implies color_at(c1, size, #[trigger] adv[i]) == opposite_color(c) by {
        assert(capt(adv[i]));
        let q = choose|q: Coord| #[trigger] captures(c1, size, p, c, q) && in_chain(c1, size, q, adv[i]);
        lemma_chain_color(c1, size, q, adv[i]);
    }
    lemma_toggled_keys(k, c1, stone_toggled(k, h0, m), opposite_color(c), adv);
    let h1 = stones_toggled(k, stone_toggled(k, h0, m), opposite_color(c), adv);
    let hc1 = position_hash(k, c1);
    let hc2 = position_hash(k, c2);
    let ka = keys_of(k, c1, adv);
    assert(h1 == (h0 ^ key) ^ ka);
    assert(hc1 == h0 ^ key && hc1 == hc2 ^ ka ==> (h0 ^ key) ^ ka == hc2) by (bit_vector);
    assert(h1 == hc2);
    if has_liberty(c2, size, p) {
        assert(after.friend_stones_removed == b.friend_stones_removed);
        assert(after.friend_stones_removed =~= Seq::<Coord>::empty());
        assert(after.cells == c2);
    } else {
        let own = |x: Coord| in_chain(c2, size, p, x);
        let friend = collect_points(own, size);
        // the played point keeps its stone until the own chain goes
        lemma_index_bounds(p, size);
        lemma_coord_of_index(p, size);
        if captured(c1, size, p, c, p) {
            let q = choose|q: Coord| #[trigger] captures(c1, size, p, c, q) && in_chain(c1, size, q, p);
            lemma_chain_color(c1, size, q, p);
        }
        assert(color_at(c2, size, p) == c);
        lemma_collect_points_members(own, size);
        assert forall|i: int| 0 <= i < friend.len() implies color_at(c2, size, #[trigger] friend[i]) == c by {
            assert(own(friend[i]));
            lemma_chain_color(c2, size, p, friend[i]);
        }
        assert(after.friend_stones_removed == friend);
        assert(after.cells == remove_where(c2, size, own));
        lemma_removal_hash(k, c2, own);
        lemma_toggled_keys(k, c2, h1, c, friend);
        let kf = keys_of(k, c2, friend);
        let h3 = position_hash(k, after.cells);
        assert(hc2 == h3 ^ kf && h1 == hc2 ==> h1 ^ kf == h3) by (bit_vector);
    }
}

} // verus!
