//! The chains of a board, numbered column by column by their first stone.
use vstd::prelude::*;

use super::chain::contains_coord;
use super::chain::ChainView;
use super::coord::index_of;
use super::coord::inside;
use super::position::collect_in_col;
use super::position::collect_in_cols;
use super::position::collect_points;
use super::position::in_chain;
use super::position::is_liberty;
use super::position::lemma_chain_color;
use super::position::lemma_chain_start;
use super::position::lemma_chain_symmetric;
use super::position::lemma_chain_transitive;
use super::position::lemma_collect_in_col_members;
use super::position::lemma_collect_in_cols_members;
use super::position::lemma_collect_points_members;
use super::position::lemma_coord_of_index;
use super::position::lemma_index_bounds;
use super::position::collect_flags;
use super::position::touching_flags;
use super::rules::point_color;
use super::rules::BoardView;
use super::unset_flags;
use super::union_flags;
use super::Board;
use super::Chain;
use super::Color;
use super::Coord;

verus! {

/// `y` comes before `x` on the board, column by column.
pub open spec fn comes_before(y: Coord, x: Coord) -> bool {
    y.col < x.col || (y.col == x.col && y.row < x.row)
}

/// A point that holds a stone.
pub open spec fn is_stone(b: BoardView, x: Coord) -> bool {
    inside(x, b.size) && point_color(b, x) != Color::Empty
}

/// A stone that comes first in its chain.
pub open spec fn is_head(b: BoardView, x: Coord) -> bool {
    &&& is_stone(b, x)
    &&& forall|y: Coord| #[trigger] in_chain(b.cells, b.size, x, y) ==> !comes_before(y, x)
}

/// The first stones of the chains of a board, column by column.
pub open spec fn chain_heads(b: BoardView) -> Seq<Coord> {
    collect_points(|x: Coord| is_head(b, x), b.size)
}

/// The chain that starts at the stone `h`, numbered `k`: its colour, and
/// its stones and liberties column by column.
pub open spec fn chain_at(b: BoardView, h: Coord, k: int) -> ChainView {
    ChainView {
        color: point_color(b, h),
        coords: collect_points(|x: Coord| in_chain(b.cells, b.size, h, x), b.size),
        id: k,
        libs: collect_points(|l: Coord| is_liberty(b.cells, b.size, h, l), b.size),
    }
}

/// The chain numbered `k`.
pub open spec fn numbered_chain(b: BoardView, k: int) -> ChainView {
    chain_at(b, chain_heads(b)[k], k)
}

/// One of the chains of the board, as the board numbers them.
pub open spec fn chain_of(b: BoardView, v: ChainView) -> bool {
    exists|k: int| 0 <= k < chain_heads(b).len() && v == numbered_chain(b, k)
}

/// The numbered chain that holds the stone `c`.
pub open spec fn chain_through(b: BoardView, c: Coord) -> ChainView {
    numbered_chain(
        b,
        choose|k: int| 0 <= k < chain_heads(b).len() && #[trigger] in_chain(b.cells, b.size, chain_heads(b)[k], c),
    )
}

/// Some stone before `cur` has `x` in its chain.
pub open spec fn seen_before(b: BoardView, cur: Coord, x: Coord) -> bool {
    exists|y: Coord| is_stone(b, y) && comes_before(y, cur) && #[trigger] in_chain(b.cells, b.size, y, x)
}

/// Every stone's chain starts at a stone.
pub proof fn lemma_head_exists(b: BoardView, y: Coord)
    requires
        is_stone(b, y),
        b.size < 256,
    ensures
        exists|h: Coord| is_head(b, h) && #[trigger] in_chain(b.cells, b.size, h, y),
    decreases y.col * 256 + y.row,
{
    lemma_chain_start(b.cells, b.size, y);
    if is_head(b, y) {
        assert(is_head(b, y) && in_chain(b.cells, b.size, y, y));
    } else {
        let z = choose|z: Coord| #[trigger] in_chain(b.cells, b.size, y, z) && comes_before(z, y);
        lemma_chain_color(b.cells, b.size, y, z);
        lemma_head_exists(b, z);
        let h = choose|h: Coord| is_head(b, h) && #[trigger] in_chain(b.cells, b.size, h, z);
        lemma_chain_symmetric(b.cells, b.size, y, z);
        lemma_chain_transitive(b.cells, b.size, h, z, y);
    }
}

/// Two first stones of one chain are the same stone.
pub proof fn lemma_heads_apart(b: BoardView, h1: Coord, h2: Coord)
    requires
        is_head(b, h1),
        is_head(b, h2),
        in_chain(b.cells, b.size, h1, h2),
    ensures
        h1 == h2,
{
    lemma_chain_symmetric(b.cells, b.size, h1, h2);
    assert(!comes_before(h2, h1));
    assert(!comes_before(h1, h2));
}

/// A point starts a chain exactly when it holds a stone and no stone
/// before it shares its chain.
proof fn lemma_head_iff(b: BoardView, p: Coord)
    requires
        inside(p, b.size),
    ensures
        is_head(b, p) == (is_stone(b, p) && !seen_before(b, p, p)),
{
    if is_stone(b, p) && !seen_before(b, p, p) {
        assert forall|y: Coord| #[trigger] in_chain(b.cells, b.size, p, y) implies !comes_before(y, p) by {
            if comes_before(y, p) {
                lemma_chain_color(b.cells, b.size, p, y);
                lemma_chain_symmetric(b.cells, b.size, p, y);
                assert(is_stone(b, y) && comes_before(y, p) && in_chain(b.cells, b.size, y, p));
            }
        }
    }
    if seen_before(b, p, p) {
        let y = choose|y: Coord| is_stone(b, y) && comes_before(y, p) && #[trigger] in_chain(b.cells, b.size, y, p);
        lemma_chain_symmetric(b.cells, b.size, y, p);
        assert(in_chain(b.cells, b.size, p, y));
    }
}

/// Each chain of a stone has one number.
proof fn lemma_one_number(b: BoardView, c: Coord, k: int)
    requires
        b.size < 256,
        0 <= k < chain_heads(b).len(),
        in_chain(b.cells, b.size, chain_heads(b)[k], c),
    ensures
        forall|j: int|
            0 <= j < chain_heads(b).len() && #[trigger] in_chain(b.cells, b.size, chain_heads(b)[j], c) ==> j == k,
{
    let heads = chain_heads(b);
    lemma_collect_points_members(|x: Coord| is_head(b, x), b.size);
    super::position::lemma_collect_points_distinct(|x: Coord| is_head(b, x), b.size);
    assert forall|j: int| 0 <= j < heads.len() && #[trigger] in_chain(b.cells, b.size, heads[j], c) implies j == k by {
        assert(is_head(b, heads[k]) && is_head(b, heads[j]));
        lemma_chain_symmetric(b.cells, b.size, heads[j], c);
        lemma_chain_transitive(b.cells, b.size, heads[k], c, heads[j]);
        lemma_heads_apart(b, heads[k], heads[j]);
    }
}

impl Board {
    /// The chains of the board, numbered column by column by their first
    /// stone, each with its stones and liberties column by column.
    pub fn chains(&self) -> (res: Vec<Chain>)
        requires
            self.well_formed(),
        ensures
            res.len() == chain_heads(self@).len(),
            forall|k: int| 0 <= k < res.len() ==> (#[trigger] res@[k])@ == numbered_chain(self@, k),
    {
        proof {
            self.lemma_well_formed();
        }
        let ghost b = self@;
        let ghost sz = b.size;
        let ghost pred = |x: Coord| is_head(b, x);
        let size = self.size;
        let n = self.board.len();
        let mut seen = unset_flags(n);
        let mut res: Vec<Chain> = Vec::new();
        proof {
            assert forall|x: Coord| inside(x, sz) implies #[trigger] seen@[index_of(x, sz)] == seen_before(
                b,
                Coord { col: 1, row: 1 },
                x,
            ) by {
                lemma_index_bounds(x, sz);
            }
        }
        let mut c: u8 = 1;
        while c <= size
            invariant
                self.well_formed(),
                b == self@,
                pred == (|x: Coord| is_head(b, x)),
                sz == b.size,
                size == sz,
                size < 127,
                n == b.cells.len(),
                n == sz * sz,
                1 <= c <= size + 1,
                seen.len() == n,
                forall|x: Coord|
                    inside(x, sz) ==> #[trigger] seen@[index_of(x, sz)] == seen_before(b, Coord { col: c, row: 1 }, x),
                res.len() == collect_in_cols(pred, sz, c - 1).len(),
                forall|k: int|
                    0 <= k < res.len() ==> (#[trigger] res@[k])@ == chain_at(b, collect_in_cols(pred, sz, c - 1)[k], k),
            decreases size + 1 - c,
        {
            let ghost base = collect_in_cols(pred, sz, c - 1);
            let mut r: u8 = 1;
            while r <= size
                invariant
                    self.well_formed(),
                    b == self@,
                    pred == (|x: Coord| is_head(b, x)),
                    sz == b.size,
                    size == sz,
                    size < 127,
                    n == b.cells.len(),
                    n == sz * sz,
                    1 <= c <= size,
                    1 <= r <= size + 1,
                    seen.len() == n,
                    base == collect_in_cols(pred, sz, c - 1),
                    forall|x: Coord|
                        inside(x, sz) ==> #[trigger] seen@[index_of(x, sz)] == seen_before(b, Coord { col: c, row: r }, x),
                    res.len() == (base + collect_in_col(pred, c as int, r - 1)).len(),
                    forall|k: int|
                        0 <= k < res.len() ==> (#[trigger] res@[k])@ == chain_at(
                            b,
                            (base + collect_in_col(pred, c as int, r - 1))[k],
                            k,
                        ),
                decreases size + 1 - r,
            {
                let p = Coord { col: c, row: r };
                let ghost cur = p;
                let ghost next = Coord { col: c, row: (r + 1) as u8 };
                proof {
                    lemma_index_bounds(p, sz);
                    assert(collect_in_col(pred, c as int, r as int) == if pred(p) {
                        collect_in_col(pred, c as int, r - 1).push(p)
                    } else {
                        collect_in_col(pred, c as int, r - 1)
                    });
                }
                let color = self.board[p.to_index(size)];
                let was_seen = seen[p.to_index(size)];
                let ghost seen_before_step = seen@;
                proof {
                    lemma_head_iff(b, p);
                    assert(color == point_color(b, p));
                    assert(was_seen == seen_before(b, p, p));
                    assert(pred(p) == is_head(b, p));
                    assert(pred(p) == (color != Color::Empty && !was_seen));
                }
                if color != Color::Empty && !was_seen {
                    let marks = self.marks_of(p);
                    let lf = touching_flags(&self.board, size, &self.cache.neighbours, &marks, Ghost(p), Color::Empty);
                    let ghost cells = b.cells;
                    let coords = collect_flags(&marks, size, Ghost(|x: Coord| in_chain(cells, sz, p, x)));
                    let libs = collect_flags(&lf, size, Ghost(|l: Coord| is_liberty(cells, sz, p, l)));
                    let chain = Chain::from_parts(res.len(), color, coords, libs);
                    let ghost before_res = res@;
                    res.push(chain);
                    union_flags(&mut seen, &marks);
                    proof {
                        let heads_now = base + collect_in_col(pred, c as int, r as int);
                        assert(heads_now =~= (base + collect_in_col(pred, c as int, r - 1)).push(p));
                        assert forall|k: int| 0 <= k < res.len() implies (#[trigger] res@[k])@ == chain_at(b, heads_now[k], k) by {
                            if k < before_res.len() {
                                assert(res@[k] == before_res[k]);
                            }
                        }
                        assert forall|x: Coord| inside(x, sz) implies #[trigger] seen@[index_of(x, sz)] == seen_before(b, next, x) by {
                            lemma_index_bounds(x, sz);
                            if in_chain(b.cells, sz, p, x) {
                                assert(is_stone(b, p) && comes_before(p, next) && in_chain(b.cells, sz, p, x));
                            }
                            if seen_before(b, next, x) {
                                let y = choose|y: Coord| is_stone(b, y) && comes_before(y, next) && #[trigger] in_chain(b.cells, sz, y, x);
                                if y != p {
                                    assert(comes_before(y, cur));
                                }
                            }
                        }
                    }
                } else {
                    proof {
                        let heads_now = base + collect_in_col(pred, c as int, r as int);
                        assert(heads_now =~= base + collect_in_col(pred, c as int, r - 1));
                        assert forall|x: Coord| inside(x, sz) implies #[trigger] seen@[index_of(x, sz)] == seen_before(b, next, x) by {
                            lemma_index_bounds(x, sz);
                            if seen_before(b, next, x) {
                                let y = choose|y: Coord| is_stone(b, y) && comes_before(y, next) && #[trigger] in_chain(b.cells, sz, y, x);
                                if y == p {
                                    let z = choose|z: Coord| is_stone(b, z) && comes_before(z, cur) && #[trigger] in_chain(b.cells, sz, z, p);
                                    lemma_chain_transitive(b.cells, sz, z, p, x);
                                    assert(is_stone(b, z) && comes_before(z, cur) && in_chain(b.cells, sz, z, x));
                                } else {
                                    assert(comes_before(y, cur));
                                }
                            }
                            if seen_before(b, cur, x) {
                                let y = choose|y: Coord| is_stone(b, y) && comes_before(y, cur) && #[trigger] in_chain(b.cells, sz, y, x);
                                assert(comes_before(y, next));
                            }
                        }
                    }
                }
                r = r + 1;
            }
            proof {
                assert(collect_in_cols(pred, sz, c as int) == base + collect_in_col(pred, c as int, sz));
                let nxt = Coord { col: (c + 1) as u8, row: 1 };
                let end = Coord { col: c, row: (size + 1) as u8 };
                assert forall|x: Coord| inside(x, sz) implies #[trigger] seen@[index_of(x, sz)] == seen_before(b, nxt, x) by {
                    if seen_before(b, end, x) {
                        let y = choose|y: Coord| is_stone(b, y) && comes_before(y, end) && #[trigger] in_chain(b.cells, sz, y, x);
                        assert(comes_before(y, nxt));
                    }
                    if seen_before(b, nxt, x) {
                        let y = choose|y: Coord| is_stone(b, y) && comes_before(y, nxt) && #[trigger] in_chain(b.cells, sz, y, x);
                        assert(comes_before(y, end));
                    }
                }
            }
            c = c + 1;
        }
        res
    }

    /// The number of the chain of a stone.
    pub fn chain_id(&self, c: &Coord) -> (res: usize)
        requires
            self.well_formed(),
            is_stone(self@, *c),
        ensures
            res < chain_heads(self@).len(),
            in_chain(self@.cells, self@.size, chain_heads(self@)[res as int], *c),
            forall|k: int|
                0 <= k < chain_heads(self@).len() && #[trigger] in_chain(self@.cells, self@.size, chain_heads(self@)[k], *c)
                    ==> k == res,
    {
        proof {
            self.lemma_well_formed();
        }
        let ghost b = self@;
        let ghost heads = chain_heads(b);
        let all = self.chains();
        let mut k: usize = 0;
        while k < all.len()
            invariant
                k <= all.len(),
                b == self@,
                heads == chain_heads(b),
                all.len() == heads.len(),
                forall|i: int| 0 <= i < all.len() ==> (#[trigger] all@[i])@ == numbered_chain(b, i),
                forall|i: int| 0 <= i < k ==> !in_chain(b.cells, b.size, #[trigger] heads[i], *c),
            decreases all.len() - k,
        {
            let ghost h = heads[k as int];
            proof {
                let member = |x: Coord| in_chain(b.cells, b.size, h, x);
                lemma_collect_points_members(member, b.size);
                assert(all@[k as int]@.coords == collect_points(member, b.size));
                if in_chain(b.cells, b.size, h, *c) {
                    lemma_chain_color(b.cells, b.size, h, *c);
                    assert(member(*c));
                }
            }
            if contains_coord(all[k].coords(), *c) {
                proof {
                    lemma_one_number(b, *c, k as int);
                }
                return k;
            }
            k = k + 1;
        }
        proof {
            lemma_head_exists(b, *c);
            let h = choose|h: Coord| is_head(b, h) && #[trigger] in_chain(b.cells, b.size, h, *c);
            let head_pred = |x: Coord| is_head(b, x);
            lemma_collect_points_members(head_pred, b.size);
            assert(head_pred(h));
            assert(heads.contains(h));
            let i = choose|i: int| 0 <= i < heads.len() && heads[i] == h;
            assert(!in_chain(b.cells, b.size, heads[i], *c));
        }
        0
    }

    /// The chain of a point, none for a vacant point.
    pub fn get_chain(&self, c: Coord) -> (res: Option<Chain>)
        requires
            self.well_formed(),
            inside(c, self@.size),
        ensures
            res is None <==> point_color(self@, c) == Color::Empty,
            res is Some ==> exists|k: int|
                0 <= k < chain_heads(self@).len() && #[trigger] in_chain(self@.cells, self@.size, chain_heads(self@)[k], c)
                    && res->0@ == numbered_chain(self@, k),
            res is Some ==> res->0@ == chain_through(self@, c) && chain_of(self@, res->0@),
    {
        proof {
            self.lemma_well_formed();
            lemma_index_bounds(c, self@.size);
        }
        if self.board[c.to_index(self.size)] == Color::Empty {
            return None;
        }
        let k = self.chain_id(&c);
        let mut all = self.chains();
        let chain = all.remove(k);
        proof {
            let b = self@;
            let j = choose|j: int| 0 <= j < chain_heads(b).len() && #[trigger] in_chain(b.cells, b.size, chain_heads(b)[j], c);
            assert(j == k);
        }
        Some(chain)
    }
}

} // verus!
