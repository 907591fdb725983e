//! Chains of stones and their liberties on a row-major vector of points,
//! and the flood fill that finds them.
use vstd::prelude::*;

use super::coord::adjacent;
use super::coord::dec_u8;
use super::coord::inc_u8;
use super::coord::index_of;
use super::coord::inside;
use super::coord::inside_only;
use super::coord::neighbour_candidates;
use super::Color;
use super::Coord;

verus! {

/// The colour on a point of the board.
pub open spec fn color_at(cells: Seq<Color>, size: int, p: Coord) -> Color {
    cells[index_of(p, size)]
}

/// Two neighbouring points of the board that carry the same colour.
pub open spec fn linked(cells: Seq<Color>, size: int, p: Coord, q: Coord) -> bool {
    inside(p, size) && inside(q, size) && adjacent(p, q) && color_at(cells, size, p) == color_at(
        cells,
        size,
        q,
    )
}

/// `x` is reached from `a` in at most `n` steps between linked points.
pub open spec fn reach_within(cells: Seq<Color>, size: int, a: Coord, x: Coord, n: nat) -> bool
    decreases n,
{
    if n == 0 {
        x == a && inside(a, size)
    } else {
        reach_within(cells, size, a, x, (n - 1) as nat) || exists|y: Coord|
            #[trigger] linked(cells, size, y, x) && reach_within(cells, size, a, y, (n - 1) as nat)
    }
}

/// `x` belongs to the chain of `a`: the maximal connected set of points of
/// `a`'s colour that holds `a`. Vacant points form chains too.
pub open spec fn in_chain(cells: Seq<Color>, size: int, a: Coord, x: Coord) -> bool {
    exists|n: nat| #[trigger] reach_within(cells, size, a, x, n)
}

/// `z` carries `color` and touches the chain of `a`.
pub open spec fn touches(cells: Seq<Color>, size: int, a: Coord, z: Coord, color: Color) -> bool {
    inside(z, size) && color_at(cells, size, z) == color && exists|x: Coord|
        #[trigger] in_chain(cells, size, a, x) && adjacent(x, z)
}

/// A liberty of the chain of `a`: a vacant point next to one of its stones.
pub open spec fn is_liberty(cells: Seq<Color>, size: int, a: Coord, l: Coord) -> bool {
    touches(cells, size, a, l, Color::Empty)
}

/// Whether the chain of `a` has a liberty.
pub open spec fn has_liberty(cells: Seq<Color>, size: int, a: Coord) -> bool {
    exists|l: Coord| #[trigger] is_liberty(cells, size, a, l)
}

/// The number of points `(c, r)` with `c <= col` in row `r` that satisfy `pred`.
pub open spec fn count_in_row(pred: spec_fn(Coord) -> bool, r: int, col: int) -> nat
    decreases col,
{
    if col <= 0 {
        0
    } else {
        count_in_row(pred, r, col - 1) + if pred(Coord { col: col as u8, row: r as u8 }) {
            1nat
        } else {
            0nat
        }
    }
}

/// The number of points in the first `rows` rows of a board of `size`
/// lines that satisfy `pred`.
pub open spec fn count_in_rows(pred: spec_fn(Coord) -> bool, size: int, rows: int) -> nat
    decreases rows,
{
    if rows <= 0 {
        0
    } else {
        count_in_rows(pred, size, rows - 1) + count_in_row(pred, rows, size)
    }
}

/// The number of points of the board that satisfy `pred`.
pub open spec fn count_points(pred: spec_fn(Coord) -> bool, size: int) -> nat {
    count_in_rows(pred, size, size)
}

/// The number of liberties of the chain of `a`.
pub open spec fn liberty_count(cells: Seq<Color>, size: int, a: Coord) -> nat {
    count_points(|l: Coord| is_liberty(cells, size, a, l), size)
}

/// The number of points in the chain of `a`.
pub open spec fn chain_len(cells: Seq<Color>, size: int, a: Coord) -> nat {
    count_points(|x: Coord| inside(x, size) && in_chain(cells, size, a, x), size)
}

/// The neighbour table of a board: for each point, its orthogonal
/// neighbours on the board.
pub open spec fn neighbour_table(table: Seq<Vec<Coord>>, size: int) -> bool {
    &&& table.len() == size * size
    &&& forall|c: Coord|
        inside(c, size) ==> (#[trigger] table[index_of(c, size)])@ == inside_only(
            neighbour_candidates(c),
            size,
        )
}

/// The number of `true` entries.
pub open spec fn count_true(s: Seq<bool>) -> nat
    decreases s.len(),
{
    if s.len() == 0 {
        0
    } else {
        count_true(s.drop_last()) + if s.last() {
            1nat
        } else {
            0nat
        }
    }
}

pub proof fn lemma_count_true_bound(s: Seq<bool>)
    ensures
        count_true(s) <= s.len(),
    decreases s.len(),
{
    if s.len() > 0 {
        lemma_count_true_bound(s.drop_last());
    }
}

pub proof fn lemma_count_true_set(s: Seq<bool>, i: int)
    requires
        0 <= i < s.len(),
        !s[i],
    ensures
        count_true(s.update(i, true)) == count_true(s) + 1,
    decreases s.len(),
{
    let t = s.update(i, true);
    if i == s.len() - 1 {
        assert(t.drop_last() =~= s.drop_last());
    } else {
        lemma_count_true_set(s.drop_last(), i);
        assert(t.drop_last() =~= s.drop_last().update(i, true));
    }
}

/// The index of a point of the board lies within the board's vector.
pub proof fn lemma_index_bounds(c: Coord, size: int)
    requires
        inside(c, size),
    ensures
        0 <= index_of(c, size) < size * size,
{
    let x = (c.col - 1) as int;
    let y = (c.row - 1) as int;
    assert(0 <= x + y * size < size * size) by (nonlinear_arith)
        requires
            0 <= x < size,
            0 <= y < size,
    ;
}

/// Distinct points of the board have distinct indices.
pub proof fn lemma_index_injective(a: Coord, b: Coord, size: int)
    requires
        inside(a, size),
        inside(b, size),
        index_of(a, size) == index_of(b, size),
    ensures
        a == b,
{
    let xa = (a.col - 1) as int;
    let ya = (a.row - 1) as int;
    let xb = (b.col - 1) as int;
    let yb = (b.row - 1) as int;
    assert(ya == yb) by (nonlinear_arith)
        requires
            0 <= xa < size,
            0 <= xb < size,
            0 <= ya,
            0 <= yb,
            xa + ya * size == xb + yb * size,
    {
        if ya < yb {
            assert((yb - ya) * size >= size);
        } else if yb < ya {
            assert((ya - yb) * size >= size);
        }
    }
}

/// Membership in the points that lie on the board.
pub proof fn lemma_inside_only_contains(s: Seq<Coord>, size: int, w: Coord)
    ensures
        inside_only(s, size).contains(w) <==> (s.contains(w) && inside(w, size)),
    decreases s.len(),
{
    if s.len() > 0 {
        lemma_inside_only_contains(s.drop_last(), size, w);
        assert(s =~= s.drop_last().push(s.last()));
        if s.drop_last().contains(w) {
            let k = choose|k: int| 0 <= k < s.drop_last().len() && s.drop_last()[k] == w;
            assert(s[k] == w);
        }
        if s.contains(w) && w != s.last() {
            let k = choose|k: int| 0 <= k < s.len() && s[k] == w;
            assert(s.drop_last()[k] == w);
        }
        let rest = inside_only(s.drop_last(), size);
        if inside(s.last(), size) {
            assert(rest.push(s.last())[rest.len() as int] == s.last());
            if rest.contains(w) {
                let k = choose|k: int| 0 <= k < rest.len() && rest[k] == w;
                assert(rest.push(s.last())[k] == w);
            }
            if rest.push(s.last()).contains(w) && w != s.last() {
                let k = choose|k: int| 0 <= k < rest.len() + 1 && rest.push(s.last())[k] == w;
                assert(rest[k] == w);
            }
        }
    }
}

/// The neighbour list of a point names exactly its orthogonal neighbours
/// on the board.
pub proof fn lemma_neighbours_exact(x: Coord, size: int, w: Coord)
    requires
        inside(x, size),
        size < 127,
    ensures
        inside_only(neighbour_candidates(x), size).contains(w) <==> (inside(w, size) && adjacent(
            x,
            w,
        )),
{
    lemma_inside_only_contains(neighbour_candidates(x), size, w);
    let s = neighbour_candidates(x);
    assert(dec_u8(x.col) == x.col - 1);
    assert(inc_u8(x.col) == x.col + 1);
    assert(dec_u8(x.row) == x.row - 1);
    assert(inc_u8(x.row) == x.row + 1);
    if adjacent(x, w) {
        if w.col == x.col && w.row + 1 == x.row {
            assert(s[1] == w);
        } else if w.col == x.col {
            assert(s[2] == w);
        } else if w.col + 1 == x.col {
            assert(s[0] == w);
        } else {
            assert(s[3] == w);
        }
    }
    if s.contains(w) {
        let k = choose|k: int| 0 <= k < s.len() && s[k] == w;
        assert(k == 0 || k == 1 || k == 2 || k == 3);
    }
}

/// A reached point lies on the board and carries the colour of the start.
pub proof fn lemma_reach_color(cells: Seq<Color>, size: int, a: Coord, x: Coord, n: nat)
    requires
        reach_within(cells, size, a, x, n),
    ensures
        inside(x, size),
        inside(a, size),
        color_at(cells, size, x) == color_at(cells, size, a),
    decreases n,
{
    if n > 0 {
        if reach_within(cells, size, a, x, (n - 1) as nat) {
            lemma_reach_color(cells, size, a, x, (n - 1) as nat);
        } else {
            let y = choose|y: Coord|
                #[trigger] linked(cells, size, y, x) && reach_within(cells, size, a, y, (n - 1) as nat);
            lemma_reach_color(cells, size, a, y, (n - 1) as nat);
        }
    }
}

/// A member of a chain lies on the board and has the chain's colour.
pub proof fn lemma_chain_color(cells: Seq<Color>, size: int, a: Coord, x: Coord)
    requires
        in_chain(cells, size, a, x),
    ensures
        inside(x, size),
        inside(a, size),
        color_at(cells, size, x) == color_at(cells, size, a),
{
    let n = choose|n: nat| #[trigger] reach_within(cells, size, a, x, n);
    lemma_reach_color(cells, size, a, x, n);
}

/// A chain grows along linked points.
pub proof fn lemma_chain_step(cells: Seq<Color>, size: int, a: Coord, x: Coord, y: Coord)
    requires
        in_chain(cells, size, a, x),
        linked(cells, size, x, y),
    ensures
        in_chain(cells, size, a, y),
{
    let n = choose|n: nat| #[trigger] reach_within(cells, size, a, x, n);
    assert(reach_within(cells, size, a, y, n + 1));
}

/// A path from `z` can start one step earlier, at a point linked to `z`.
proof fn lemma_reach_prepend(cells: Seq<Color>, size: int, w: Coord, z: Coord, a: Coord, n: nat)
    requires
        reach_within(cells, size, z, a, n),
        linked(cells, size, w, z),
    ensures
        reach_within(cells, size, w, a, n + 1),
    decreases n,
{
    if n == 0 {
        assert(reach_within(cells, size, w, w, 0));
        assert(linked(cells, size, w, a) && reach_within(cells, size, w, w, 0));
    } else if reach_within(cells, size, z, a, (n - 1) as nat) {
        lemma_reach_prepend(cells, size, w, z, a, (n - 1) as nat);
    } else {
        let y = choose|y: Coord| #[trigger] linked(cells, size, y, a) && reach_within(cells, size, z, y, (n - 1) as nat);
        lemma_reach_prepend(cells, size, w, z, y, (n - 1) as nat);
        assert(linked(cells, size, y, a) && reach_within(cells, size, w, y, n));
    }
}

/// Belonging to the same chain is symmetric.
pub proof fn lemma_chain_symmetric(cells: Seq<Color>, size: int, a: Coord, x: Coord)
    requires
        in_chain(cells, size, a, x),
    ensures
        in_chain(cells, size, x, a),
{
    let n = choose|n: nat| #[trigger] reach_within(cells, size, a, x, n);
    lemma_reach_symmetric(cells, size, a, x, n);
}

proof fn lemma_reach_symmetric(cells: Seq<Color>, size: int, a: Coord, x: Coord, n: nat)
    requires
        reach_within(cells, size, a, x, n),
    ensures
        in_chain(cells, size, x, a),
    decreases n,
{
    if n == 0 {
        assert(reach_within(cells, size, a, a, 0));
    } else if reach_within(cells, size, a, x, (n - 1) as nat) {
        lemma_reach_symmetric(cells, size, a, x, (n - 1) as nat);
    } else {
        let y = choose|y: Coord| #[trigger] linked(cells, size, y, x) && reach_within(cells, size, a, y, (n - 1) as nat);
        lemma_reach_symmetric(cells, size, a, y, (n - 1) as nat);
        let m = choose|m: nat| #[trigger] reach_within(cells, size, y, a, m);
        assert(linked(cells, size, x, y));
        lemma_reach_prepend(cells, size, x, y, a, m);
    }
}

/// Belonging to the same chain is transitive.
pub proof fn lemma_chain_transitive(cells: Seq<Color>, size: int, a: Coord, x: Coord, y: Coord)
    requires
        in_chain(cells, size, a, x),
        in_chain(cells, size, x, y),
    ensures
        in_chain(cells, size, a, y),
{
    let n = choose|n: nat| #[trigger] reach_within(cells, size, x, y, n);
    lemma_reach_transitive(cells, size, a, x, y, n);
}

proof fn lemma_reach_transitive(cells: Seq<Color>, size: int, a: Coord, x: Coord, y: Coord, n: nat)
    requires
        in_chain(cells, size, a, x),
        reach_within(cells, size, x, y, n),
    ensures
        in_chain(cells, size, a, y),
    decreases n,
{
    if n > 0 {
        if reach_within(cells, size, x, y, (n - 1) as nat) {
            lemma_reach_transitive(cells, size, a, x, y, (n - 1) as nat);
        } else {
            let z = choose|z: Coord| #[trigger] linked(cells, size, z, y) && reach_within(cells, size, x, z, (n - 1) as nat);
            lemma_reach_transitive(cells, size, a, x, z, (n - 1) as nat);
            lemma_chain_step(cells, size, a, z, y);
        }
    }
}

/// Every point is in its own chain.
pub proof fn lemma_chain_start(cells: Seq<Color>, size: int, a: Coord)
    requires
        inside(a, size),
    ensures
        in_chain(cells, size, a, a),
{
    assert(reach_within(cells, size, a, a, 0));
}

/// A set of points that holds `a` and is closed along linked points holds
/// the whole chain of `a`.
pub proof fn lemma_closed_holds_chain(
    cells: Seq<Color>,
    size: int,
    a: Coord,
    set: spec_fn(Coord) -> bool,
    x: Coord,
    n: nat,
)
    requires
        set(a),
        forall|z: Coord, w: Coord| set(z) && #[trigger] linked(cells, size, z, w) ==> set(w),
        reach_within(cells, size, a, x, n),
    ensures
        set(x),
    decreases n,
{
    if n > 0 {
        if reach_within(cells, size, a, x, (n - 1) as nat) {
            lemma_closed_holds_chain(cells, size, a, set, x, (n - 1) as nat);
        } else {
            let y = choose|y: Coord|
                #[trigger] linked(cells, size, y, x) && reach_within(cells, size, a, y, (n - 1) as nat);
            lemma_closed_holds_chain(cells, size, a, set, y, (n - 1) as nat);
        }
    }
}

/// Marks, indexed like the board, of the points of the chain of `start`.
pub fn chain_marks(cells: &Vec<Color>, size: u8, table: &Vec<Vec<Coord>>, start: Coord) -> (marks:
    Vec<bool>)
    requires
        size < 127,
        cells.len() == size * size,
        neighbour_table(table@, size as int),
        inside(start, size as int),
    ensures
        marks.len() == cells.len(),
        forall|x: Coord|
            inside(x, size as int) ==> marks@[index_of(x, size as int)] == in_chain(
                cells@,
                size as int,
                start,
                x,
            ),
{
    let ghost sz = size as int;
    let n = cells.len();
    let mut marks: Vec<bool> = Vec::new();
    let mut k: usize = 0;
    while k < n
        invariant
            k <= n,
            marks.len() == k,
            forall|i: int| 0 <= i < k ==> !(#[trigger] marks@[i]),
        decreases n - k,
    {
        marks.push(false);
        k = k + 1;
    }
    proof {
        assert(count_true(marks@) == 0) by {
            lemma_count_true_zero(marks@);
        }
        lemma_index_bounds(start, sz);
        lemma_count_true_set(marks@, index_of(start, sz));
        lemma_chain_start(cells@, sz, start);
    }
    let start_color = cells[start.to_index(size)];
    let ghost marks0 = marks@;
    marks.set(start.to_index(size), true);
    let mut stack: Vec<Coord> = Vec::new();
    stack.push(start);
    proof {
        assert forall|x: Coord| inside(x, sz) && #[trigger] marks@[index_of(x, sz)] implies in_chain(
            cells@,
            sz,
            start,
            x,
        ) by {
            lemma_index_bounds(x, sz);
            if index_of(x, sz) == index_of(start, sz) {
                lemma_index_injective(x, start, sz);
            } else {
                assert(!marks0[index_of(x, sz)]);
            }
        }
        assert forall|z: Coord, w: Coord|
            inside(z, sz) && marks@[index_of(z, sz)] && !stack@.contains(z) && #[trigger] linked(
                cells@,
                sz,
                z,
                w,
            ) implies marks@[index_of(w, sz)] by {
            lemma_index_bounds(z, sz);
            if index_of(z, sz) == index_of(start, sz) {
                lemma_index_injective(z, start, sz);
                assert(stack@[0] == start);
            } else {
                assert(!marks0[index_of(z, sz)]);
            }
        }
    }
    while stack.len() > 0
        invariant
            size < 127,
            sz == size as int,
            cells.len() == sz * sz,
            n == cells.len(),
            neighbour_table(table@, sz),
            inside(start, sz),
            start_color == color_at(cells@, sz, start),
            marks.len() == n,
            count_true(marks@) <= n,
            marks@[index_of(start, sz)],
            forall|x: Coord|
                inside(x, sz) && #[trigger] marks@[index_of(x, sz)] ==> in_chain(
                    cells@,
                    sz,
                    start,
                    x,
                ),
            forall|k: int|
                0 <= k < stack.len() ==> inside(#[trigger] stack@[k], sz) && marks@[index_of(
                    stack@[k],
                    sz,
                )],
            forall|k1: int, k2: int|
                0 <= k1 < stack.len() && 0 <= k2 < stack.len() && k1 != k2 ==> #[trigger] stack@[k1]
                    != #[trigger] stack@[k2],
            forall|z: Coord, w: Coord|
                inside(z, sz) && marks@[index_of(z, sz)] && !stack@.contains(z) && #[trigger] linked(
                    cells@,
                    sz,
                    z,
                    w,
                ) ==> marks@[index_of(w, sz)],
        decreases n - count_true(marks@) + stack.len(),
    {
        let ghost stack_before = stack@;
        let x = stack.pop().unwrap();
        proof {
            if stack@.contains(x) {
                let k = choose|k: int| 0 <= k < stack.len() && stack@[k] == x;
                assert(stack_before[k] == stack_before[stack_before.len() - 1]);
            }
            lemma_index_bounds(x, sz);
        }
        let ix = x.to_index(size);
        let nb = &table[ix];
        let ghost stack_after_pop = stack@;
        proof {
            assert(stack_before =~= stack_after_pop.push(x));
            assert forall|z: Coord, w: Coord|
                z != x && inside(z, sz) && marks@[index_of(z, sz)] && !stack@.contains(z)
                    && #[trigger] linked(cells@, sz, z, w) implies marks@[index_of(w, sz)] by {
                assert(!stack_before.contains(z)) by {
                    if stack_before.contains(z) {
                        let k = choose|k: int| 0 <= k < stack_before.len() && stack_before[k] == z;
                        assert(stack@[k] == z);
                    }
                }
            }
        }
        let ghost count_before = count_true(marks@);
        let mut j: usize = 0;
        while j < nb.len()
            invariant
                size < 127,
                sz == size as int,
                cells.len() == sz * sz,
                n == cells.len(),
                neighbour_table(table@, sz),
                inside(start, sz),
                inside(x, sz),
                ix == index_of(x, sz),
                nb@ == inside_only(neighbour_candidates(x), sz),
                start_color == color_at(cells@, sz, start),
                marks.len() == n,
                count_true(marks@) <= n,
                stack.len() + count_before == stack_after_pop.len() + count_true(marks@),
                j <= nb.len(),
                marks@[index_of(start, sz)],
                marks@[index_of(x, sz)],
                !stack@.contains(x),
                forall|x: Coord|
                    inside(x, sz) && #[trigger] marks@[index_of(x, sz)] ==> in_chain(
                        cells@,
                        sz,
                        start,
                        x,
                    ),
                forall|k: int|
                    0 <= k < stack.len() ==> inside(#[trigger] stack@[k], sz) && marks@[index_of(
                        stack@[k],
                        sz,
                    )],
                forall|k1: int, k2: int|
                    0 <= k1 < stack.len() && 0 <= k2 < stack.len() && k1 != k2 ==> #[trigger] stack@[k1]
                        != #[trigger] stack@[k2],
                forall|z: Coord, w: Coord|
                    z != x && inside(z, sz) && marks@[index_of(z, sz)] && !stack@.contains(z)
                        && #[trigger] linked(cells@, sz, z, w) ==> marks@[index_of(w, sz)],
                forall|i: int|
                    0 <= i < j && #[trigger] linked(cells@, sz, x, nb@[i]) ==> marks@[index_of(
                        nb@[i],
                        sz,
                    )],
            decreases nb.len() - j,
        {
            let y = nb[j];
            proof {
                lemma_inside_only_contains(neighbour_candidates(x), sz, y);
                assert(nb@.contains(y));
                lemma_neighbours_exact(x, sz, y);
                lemma_index_bounds(y, sz);
            }
            let iy = y.to_index(size);
            let ghost marks_at_j = marks@;
            if cells[iy] == start_color && !marks[iy] {
                let ghost marks_before = marks@;
                let ghost stack_mid = stack@;
                proof {
                    lemma_chain_color(cells@, sz, start, x);
                    assert(linked(cells@, sz, x, y));
                    lemma_chain_step(cells@, sz, start, x, y);
                    lemma_count_true_set(marks@, iy as int);
                    lemma_count_true_bound(marks@.update(iy as int, true));
                    assert(!stack_mid.contains(y)) by {
                        if stack_mid.contains(y) {
                            let k = choose|k: int| 0 <= k < stack_mid.len() && stack_mid[k] == y;
                            assert(marks_before[index_of(stack_mid[k], sz)]);
                        }
                    }
                }
                marks.set(iy, true);
                stack.push(y);
                proof {
                    assert(stack@ == stack_mid.push(y));
                    assert(marks@ == marks_before.update(iy as int, true));
                    lemma_index_bounds(start, sz);
                    lemma_index_bounds(x, sz);
                    assert forall|w: Coord| inside(w, sz) && #[trigger] marks@[index_of(w, sz)] implies in_chain(
                        cells@,
                        sz,
                        start,
                        w,
                    ) by {
                        lemma_index_bounds(w, sz);
                        if index_of(w, sz) == iy {
                            lemma_index_injective(w, y, sz);
                        } else {
                            assert(marks_before[index_of(w, sz)]);
                        }
                    }
                    assert forall|k: int| 0 <= k < stack.len() implies inside(#[trigger] stack@[k], sz)
                        && marks@[index_of(stack@[k], sz)] by {
                        if k < stack_mid.len() {
                            assert(stack@[k] == stack_mid[k]);
                            assert(inside(stack_mid[k], sz));
                            assert(marks_before[index_of(stack_mid[k], sz)]);
                            lemma_index_bounds(stack_mid[k], sz);
                        }
                    }
                    assert forall|k1: int, k2: int|
                        0 <= k1 < stack.len() && 0 <= k2 < stack.len() && k1 != k2 implies #[trigger] stack@[k1]
                            != #[trigger] stack@[k2] by {
                        if k1 == stack.len() - 1 || k2 == stack.len() - 1 {
                            let other = if k1 == stack.len() - 1 { k2 } else { k1 };
                            assert(stack@[other] == stack_mid[other]);
                        } else {
                            assert(stack@[k1] == stack_mid[k1]);
                            assert(stack@[k2] == stack_mid[k2]);
                        }
                    }
                    assert(!stack@.contains(x)) by {
                        if stack@.contains(x) {
                            let k = choose|k: int| 0 <= k < stack.len() && stack@[k] == x;
                            if k < stack.len() - 1 {
                                assert(stack_mid[k] == x);
                            }
                        }
                    }
                    assert forall|z: Coord, w: Coord|
                        z != x && inside(z, sz) && marks@[index_of(z, sz)] && !stack@.contains(z)
                            && #[trigger] linked(cells@, sz, z, w) implies marks@[index_of(w, sz)] by {
                        if z == y {
                            assert(stack@[stack.len() - 1] == y);
                        } else {
                            lemma_index_bounds(z, sz);
                            lemma_index_bounds(w, sz);
                            if index_of(z, sz) == iy {
                                lemma_index_injective(z, y, sz);
                            }
                            assert(marks_before[index_of(z, sz)]);
                            assert(!stack_mid.contains(z)) by {
                                if stack_mid.contains(z) {
                                    let k = choose|k: int| 0 <= k < stack_mid.len() && stack_mid[k] == z;
                                    assert(stack@[k] == z);
                                }
                            }
                            assert(marks_before[index_of(w, sz)]);
                        }
                    }
                }
            }
            proof {
                assert forall|i: int|
                    0 <= i < j + 1 && #[trigger] linked(cells@, sz, x, nb@[i]) implies marks@[index_of(
                        nb@[i],
                        sz,
                    )] by {
                    lemma_index_bounds(nb@[i], sz);
                    if i == j {
                        lemma_chain_color(cells@, sz, start, x);
                    } else {
                        assert(marks_at_j[index_of(nb@[i], sz)]);
                    }
                }
            }
            j = j + 1;
        }
        proof {
            assert forall|z: Coord, w: Coord|
                inside(z, sz) && marks@[index_of(z, sz)] && !stack@.contains(z) && #[trigger] linked(
                    cells@,
                    sz,
                    z,
                    w,
                ) implies marks@[index_of(w, sz)] by {
                if z == x {
                    lemma_neighbours_exact(x, sz, w);
                    lemma_inside_only_contains(neighbour_candidates(x), sz, w);
                    let i = choose|i: int| 0 <= i < nb@.len() && nb@[i] == w;
                    assert(linked(cells@, sz, x, nb@[i]));
                }
            }
        }
    }
    proof {
        assert forall|x: Coord| inside(x, sz) implies marks@[index_of(x, sz)] == in_chain(
            cells@,
            sz,
            start,
            x,
        ) by {
            if in_chain(cells@, sz, start, x) {
                let m = marks@;
                let set = |c: Coord| inside(c, sz) && m[index_of(c, sz)];
                let n = choose|n: nat| #[trigger] reach_within(cells@, sz, start, x, n);
                assert forall|z: Coord, w: Coord| set(z) && #[trigger] linked(cells@, sz, z, w) implies set(w) by {
                    assert(!stack@.contains(z));
                }
                lemma_closed_holds_chain(cells@, sz, start, set, x, n);
            }
        }
    }
    marks
}

pub proof fn lemma_count_true_zero(s: Seq<bool>)
    requires
        forall|i: int| 0 <= i < s.len() ==> !(#[trigger] s[i]),
    ensures
        count_true(s) == 0,
    decreases s.len(),
{
    if s.len() > 0 {
        lemma_count_true_zero(s.drop_last());
    }
}


/// The point stored at position `i` of a row-major vector.
pub open spec fn coord_of(i: int, size: int) -> Coord {
    Coord { col: (i % size + 1) as u8, row: (i / size + 1) as u8 }
}

/// The colours with the points that satisfy `dead` made vacant.
pub open spec fn remove_where(cells: Seq<Color>, size: int, dead: spec_fn(Coord) -> bool) -> Seq<
    Color,
> {
    Seq::new(cells.len(), |i: int| if dead(coord_of(i, size)) { Color::Empty } else { cells[i] })
}

/// The points of column `c`, rows `1..=rows`, that satisfy `pred`, from
/// the first row up.
pub open spec fn collect_in_col(pred: spec_fn(Coord) -> bool, c: int, rows: int) -> Seq<Coord>
    decreases rows,
{
    if rows <= 0 {
        Seq::empty()
    } else {
        let rest = collect_in_col(pred, c, rows - 1);
        let p = Coord { col: c as u8, row: rows as u8 };
        if pred(p) {
            rest.push(p)
        } else {
            rest
        }
    }
}

/// The points of columns `1..=cols` that satisfy `pred`, column by column.
pub open spec fn collect_in_cols(pred: spec_fn(Coord) -> bool, size: int, cols: int) -> Seq<Coord>
    decreases cols,
{
    if cols <= 0 {
        Seq::empty()
    } else {
        collect_in_cols(pred, size, cols - 1) + collect_in_col(pred, cols, size)
    }
}

/// The points of the board that satisfy `pred`, ordered by column and
/// then by row.
pub open spec fn collect_points(pred: spec_fn(Coord) -> bool, size: int) -> Seq<Coord> {
    collect_in_cols(pred, size, size)
}

/// The points collected from a column lie in it, up to the given row, and
/// satisfy the predicate; each such point is collected.
pub proof fn lemma_collect_in_col_members(pred: spec_fn(Coord) -> bool, c: int, rows: int)
    requires
        1 <= c <= 255,
        rows <= 255,
    ensures
        forall|i: int|
            0 <= i < collect_in_col(pred, c, rows).len() ==> {
                let x = #[trigger] collect_in_col(pred, c, rows)[i];
                x.col == c && 1 <= x.row <= rows && pred(x)
            },
        forall|r: int|
            1 <= r <= rows && #[trigger] pred(Coord { col: c as u8, row: r as u8 })
                ==> collect_in_col(pred, c, rows).contains(Coord { col: c as u8, row: r as u8 }),
    decreases rows,
{
    if rows > 0 {
        lemma_collect_in_col_members(pred, c, rows - 1);
        let rest = collect_in_col(pred, c, rows - 1);
        let all = collect_in_col(pred, c, rows);
        let p = Coord { col: c as u8, row: rows as u8 };
        assert forall|i: int| 0 <= i < all.len() implies {
            let x = #[trigger] all[i];
            x.col == c && 1 <= x.row <= rows && pred(x)
        } by {
            if i < rest.len() {
                assert(all[i] == rest[i]);
            }
        }
        assert forall|r: int| 1 <= r <= rows && #[trigger] pred(Coord { col: c as u8, row: r as u8 }) implies all.contains(
            Coord { col: c as u8, row: r as u8 },
        ) by {
            if r < rows {
                let q = Coord { col: c as u8, row: r as u8 };
                assert(rest.contains(q));
                let k = choose|k: int| 0 <= k < rest.len() && rest[k] == q;
                assert(all[k] == q);
            } else {
                assert(all[rest.len() as int] == p);
            }
        }
    }
}

/// The points collected from the first columns lie on the board and
/// satisfy the predicate; each such point is collected.
pub proof fn lemma_collect_in_cols_members(pred: spec_fn(Coord) -> bool, size: int, cols: int)
    requires
        0 <= size <= 255,
        cols <= size,
    ensures
        forall|i: int|
            0 <= i < collect_in_cols(pred, size, cols).len() ==> {
                let x = #[trigger] collect_in_cols(pred, size, cols)[i];
                inside(x, size) && x.col <= cols && pred(x)
            },
        forall|x: Coord|
            inside(x, size) && x.col <= cols && #[trigger] pred(x) ==> collect_in_cols(pred, size, cols).contains(x),
    decreases cols,
{
    if cols > 0 {
        lemma_collect_in_cols_members(pred, size, cols - 1);
        lemma_collect_in_col_members(pred, cols, size);
        let rest = collect_in_cols(pred, size, cols - 1);
        let col = collect_in_col(pred, cols, size);
        let all = collect_in_cols(pred, size, cols);
        assert(all == rest + col);
        assert forall|i: int| 0 <= i < all.len() implies {
            let x = #[trigger] all[i];
            inside(x, size) && x.col <= cols && pred(x)
        } by {
            if i < rest.len() {
                assert(all[i] == rest[i]);
            } else {
                assert(all[i] == col[i - rest.len()]);
            }
        }
        assert forall|x: Coord| inside(x, size) && x.col <= cols && #[trigger] pred(x) implies all.contains(x) by {
            if x.col < cols {
                assert(rest.contains(x));
                let k = choose|k: int| 0 <= k < rest.len() && rest[k] == x;
                assert(all[k] == x);
            } else {
                assert(x == Coord { col: cols as u8, row: x.row as int as u8 });
                assert(pred(Coord { col: cols as u8, row: x.row as int as u8 }));
                assert(col.contains(x));
                let k = choose|k: int| 0 <= k < col.len() && col[k] == x;
                assert(all[rest.len() + k] == x);
            }
        }
    }
}

/// The points collected from the board are exactly those on it that
/// satisfy the predicate.
pub proof fn lemma_collect_points_members(pred: spec_fn(Coord) -> bool, size: int)
    requires
        0 <= size <= 255,
    ensures
        forall|i: int|
            0 <= i < collect_points(pred, size).len() ==> inside(#[trigger] collect_points(pred, size)[i], size)
                && pred(collect_points(pred, size)[i]),
        forall|x: Coord| inside(x, size) && #[trigger] pred(x) ==> collect_points(pred, size).contains(x),
{
    lemma_collect_in_cols_members(pred, size, size);
}

/// The points collected from a column come in rising rows, so none twice.
pub proof fn lemma_collect_in_col_rising(pred: spec_fn(Coord) -> bool, c: int, rows: int)
    requires
        1 <= c <= 255,
        rows <= 255,
    ensures
        forall|i: int, j: int|
            0 <= i < j < collect_in_col(pred, c, rows).len() ==> (#[trigger] collect_in_col(pred, c, rows)[i]).row
                < (#[trigger] collect_in_col(pred, c, rows)[j]).row,
    decreases rows,
{
    if rows > 0 {
        lemma_collect_in_col_rising(pred, c, rows - 1);
        lemma_collect_in_col_members(pred, c, rows - 1);
        let rest = collect_in_col(pred, c, rows - 1);
        let all = collect_in_col(pred, c, rows);
        assert forall|i: int, j: int| 0 <= i < j < all.len() implies (#[trigger] all[i]).row < (#[trigger] all[j]).row by {
            if j < rest.len() {
                assert(all[i] == rest[i] && all[j] == rest[j]);
            } else {
                assert(all[i] == rest[i]);
                assert(rest[i].row <= rows - 1);
            }
        }
    }
}

/// No point is collected twice from the board.
pub proof fn lemma_collect_points_distinct(pred: spec_fn(Coord) -> bool, size: int)
    requires
        0 <= size <= 255,
    ensures
        collect_points(pred, size).no_duplicates(),
{
    lemma_collect_cols_distinct(pred, size, size);
}

proof fn lemma_collect_cols_distinct(pred: spec_fn(Coord) -> bool, size: int, cols: int)
    requires
        0 <= size <= 255,
        cols <= size,
    ensures
        collect_in_cols(pred, size, cols).no_duplicates(),
    decreases cols,
{
    if cols > 0 {
        lemma_collect_cols_distinct(pred, size, cols - 1);
        lemma_collect_in_cols_members(pred, size, cols - 1);
        lemma_collect_in_col_members(pred, cols, size);
        lemma_collect_in_col_rising(pred, cols, size);
        let rest = collect_in_cols(pred, size, cols - 1);
        let col = collect_in_col(pred, cols, size);
        let all = collect_in_cols(pred, size, cols);
        assert(all == rest + col);
        assert forall|i: int, j: int| 0 <= i < all.len() && 0 <= j < all.len() && i != j implies all[i] != all[j] by {
            if i < rest.len() && j < rest.len() {
                assert(all[i] == rest[i] && all[j] == rest[j]);
            } else if i < rest.len() {
                assert(all[i] == rest[i] && all[j] == col[j - rest.len()]);
                assert(rest[i].col <= cols - 1);
            } else if j < rest.len() {
                assert(all[j] == rest[j] && all[i] == col[i - rest.len()]);
                assert(rest[j].col <= cols - 1);
            } else {
                let a = i - rest.len();
                let b = j - rest.len();
                assert(all[i] == col[a] && all[j] == col[b]);
                if a < b {
                    assert(col[a].row < col[b].row);
                } else {
                    assert(col[b].row < col[a].row);
                }
            }
        }
    }
}

/// Positions of a row-major vector and points of the board correspond.
pub proof fn lemma_coord_of_index(c: Coord, size: int)
    requires
        inside(c, size),
    ensures
        coord_of(index_of(c, size), size) == c,
        0 <= index_of(c, size) < size * size,
{
    lemma_index_bounds(c, size);
    let x = (c.col - 1) as int;
    let y = (c.row - 1) as int;
    vstd::arithmetic::div_mod::lemma_fundamental_div_mod_converse(x + y * size, size, y, x);
}

/// Every position of the vector holds a point of the board.
pub proof fn lemma_index_of_coord(i: int, size: int)
    requires
        0 <= i < size * size,
        0 <= size < 256,
    ensures
        inside(coord_of(i, size), size),
        index_of(coord_of(i, size), size) == i,
{
    assert(size > 0) by (nonlinear_arith)
        requires
            0 <= i < size * size,
            0 <= size,
    ;
    vstd::arithmetic::div_mod::lemma_fundamental_div_mod(i, size);
    let q = i / size;
    let r = i % size;
    assert(0 <= r < size);
    assert(0 <= q < size) by (nonlinear_arith)
        requires
            i == size * q + r,
            0 <= r < size,
            0 <= i < size * size,
            size > 0,
    ;
    assert(i == r + q * size) by (nonlinear_arith)
        requires
            i == size * q + r,
    ;
}

/// A count of points is zero exactly when no point of the board satisfies
/// the predicate.
pub proof fn lemma_count_points_zero(pred: spec_fn(Coord) -> bool, size: int)
    requires
        0 <= size < 256,
    ensures
        (count_points(pred, size) == 0) <==> (forall|c: Coord|
            inside(c, size) ==> !#[trigger] pred(c)),
{
    lemma_count_rows_zero(pred, size, size);
}

proof fn lemma_count_row_zero(pred: spec_fn(Coord) -> bool, r: int, col: int)
    requires
        0 <= col < 256,
        0 <= r < 256,
    ensures
        (count_in_row(pred, r, col) == 0) <==> (forall|c: Coord|
            1 <= c.col <= col && c.row == r ==> !#[trigger] pred(c)),
    decreases col,
{
    if col > 0 {
        lemma_count_row_zero(pred, r, col - 1);
        let p = Coord { col: col as u8, row: r as u8 };
        if count_in_row(pred, r, col) == 0 {
            assert forall|c: Coord| 1 <= c.col <= col && c.row == r implies !#[trigger] pred(c) by {
                if c.col == col {
                    assert(c == p);
                }
            }
        }
    }
}

proof fn lemma_count_rows_zero(pred: spec_fn(Coord) -> bool, size: int, rows: int)
    requires
        0 <= size < 256,
        0 <= rows < 256,
    ensures
        (count_in_rows(pred, size, rows) == 0) <==> (forall|c: Coord|
            1 <= c.col <= size && 1 <= c.row <= rows ==> !#[trigger] pred(c)),
    decreases rows,
{
    if rows > 0 {
        lemma_count_rows_zero(pred, size, rows - 1);
        lemma_count_row_zero(pred, rows, size);
        if count_in_rows(pred, size, rows) == 0 {
            assert forall|c: Coord| 1 <= c.col <= size && 1 <= c.row <= rows implies !#[trigger] pred(c) by {
                if c.row < rows {
                } else {
                    assert(1 <= c.col <= size && c.row == rows);
                }
            }
        }
    }
}

/// Whether `a` lies in row `r` within the first `col` columns and satisfies
/// `pred`, as a count of one or zero.
pub open spec fn counted_in_row(pred: spec_fn(Coord) -> bool, a: Coord, r: int, col: int) -> nat {
    if a.row == r && 1 <= a.col <= col && pred(a) {
        1
    } else {
        0
    }
}

proof fn lemma_count_row_two(pred: spec_fn(Coord) -> bool, r: int, col: int, a: Coord, b: Coord)
    requires
        0 <= col < 256,
        0 <= r < 256,
        a != b,
    ensures
        count_in_row(pred, r, col) >= counted_in_row(pred, a, r, col) + counted_in_row(pred, b, r, col),
    decreases col,
{
    if col > 0 {
        lemma_count_row_two(pred, r, col - 1, a, b);
        let p = Coord { col: col as u8, row: r as u8 };
        if a.row == r && a.col == col {
            assert(a == p);
        }
        if b.row == r && b.col == col {
            assert(b == p);
        }
    }
}

proof fn lemma_count_rows_two(pred: spec_fn(Coord) -> bool, size: int, rows: int, a: Coord, b: Coord)
    requires
        0 <= size < 256,
        0 <= rows < 256,
        a != b,
    ensures
        count_in_rows(pred, size, rows) >= (if 1 <= a.row <= rows {
            counted_in_row(pred, a, a.row as int, size)
        } else {
            0
        }) + (if 1 <= b.row <= rows {
            counted_in_row(pred, b, b.row as int, size)
        } else {
            0
        }),
    decreases rows,
{
    if rows > 0 {
        lemma_count_rows_two(pred, size, rows - 1, a, b);
        lemma_count_row_two(pred, rows, size, a, b);
    }
}

/// Two different points of the board that satisfy a predicate make a
/// count of at least two.
pub proof fn lemma_count_points_two(pred: spec_fn(Coord) -> bool, size: int, a: Coord, b: Coord)
    requires
        0 <= size < 256,
        a != b,
        inside(a, size),
        inside(b, size),
        pred(a),
        pred(b),
    ensures
        count_points(pred, size) >= 2,
{
    lemma_count_rows_two(pred, size, size, a, b);
}

/// A count of points never exceeds the number of points.
pub proof fn lemma_count_points_bound(pred: spec_fn(Coord) -> bool, size: int)
    requires
        0 <= size,
    ensures
        count_points(pred, size) <= size * size,
{
    lemma_count_rows_bound(pred, size, size);
}

proof fn lemma_count_row_bound(pred: spec_fn(Coord) -> bool, r: int, col: int)
    requires
        0 <= col,
    ensures
        count_in_row(pred, r, col) <= col,
    decreases col,
{
    if col > 0 {
        lemma_count_row_bound(pred, r, col - 1);
    }
}

proof fn lemma_count_rows_bound(pred: spec_fn(Coord) -> bool, size: int, rows: int)
    requires
        0 <= size,
        0 <= rows,
    ensures
        count_in_rows(pred, size, rows) <= rows * size,
    decreases rows,
{
    if rows > 0 {
        lemma_count_rows_bound(pred, size, rows - 1);
        lemma_count_row_bound(pred, rows, size);
        assert((rows - 1) * size + size == rows * size) by (nonlinear_arith);
    }
}

/// Counts the points whose flag is set.
pub fn count_flags(flags: &Vec<bool>, size: u8, Ghost(pred): Ghost<spec_fn(Coord) -> bool>) -> (res:
    usize)
    requires
        size < 127,
        flags.len() == size * size,
        forall|q: Coord| inside(q, size as int) ==> #[trigger] flags@[index_of(q, size as int)] == pred(q),
    ensures
        res == count_points(pred, size as int),
{
    let ghost sz = size as int;
    let mut count: usize = 0;
    let mut r: u8 = 1;
    while r <= size
        invariant
            1 <= r <= size + 1,
            size < 127,
            sz == size as int,
            flags.len() == sz * sz,
            forall|q: Coord| inside(q, sz) ==> #[trigger] flags@[index_of(q, sz)] == pred(q),
            count == count_in_rows(pred, sz, r - 1),
            count <= (r - 1) * sz,
        decreases size + 1 - r,
    {
        let ghost base = count;
        let mut c: u8 = 1;
        while c <= size
            invariant
                1 <= c <= size + 1,
                1 <= r <= size,
                size < 127,
                sz == size as int,
                flags.len() == sz * sz,
                forall|q: Coord| inside(q, sz) ==> #[trigger] flags@[index_of(q, sz)] == pred(q),
                base == count_in_rows(pred, sz, r - 1),
                base <= (r - 1) * sz,
                count == base + count_in_row(pred, r as int, c - 1),
                count <= base + c - 1,
            decreases size + 1 - c,
        {
            let p = Coord { col: c, row: r };
            proof {
                lemma_index_bounds(p, sz);
            }
            assert(count_in_row(pred, r as int, c as int) == count_in_row(pred, r as int, c - 1) + if pred(p) {
                1nat
            } else {
                0nat
            });
            assert(flags@[index_of(p, sz)] == pred(p));
            if flags[p.to_index(size)] {
                count = count + 1;
            }
            c = c + 1;
        }
        proof {
            assert((r - 1) * sz + sz == r * sz) by (nonlinear_arith);
        }
        r = r + 1;
    }
    count
}

/// The points whose flag is set, ordered by column and then by row.
pub fn collect_flags(flags: &Vec<bool>, size: u8, Ghost(pred): Ghost<spec_fn(Coord) -> bool>) -> (res:
    Vec<Coord>)
    requires
        size < 127,
        flags.len() == size * size,
        forall|q: Coord| inside(q, size as int) ==> #[trigger] flags@[index_of(q, size as int)] == pred(q),
    ensures
        res@ == collect_points(pred, size as int),
        forall|i: int| 0 <= i < res@.len() ==> inside(#[trigger] res@[i], size as int),
{
    let ghost sz = size as int;
    let mut res: Vec<Coord> = Vec::new();
    let mut c: u8 = 1;
    while c <= size
        invariant
            1 <= c <= size + 1,
            size < 127,
            sz == size as int,
            flags.len() == sz * sz,
            forall|q: Coord| inside(q, sz) ==> #[trigger] flags@[index_of(q, sz)] == pred(q),
            res@ == collect_in_cols(pred, sz, c - 1),
            forall|i: int| 0 <= i < res@.len() ==> inside(#[trigger] res@[i], sz),
        decreases size + 1 - c,
    {
        let ghost base = res@;
        let mut r: u8 = 1;
        while r <= size
            invariant
                1 <= r <= size + 1,
                1 <= c <= size,
                size < 127,
                sz == size as int,
                flags.len() == sz * sz,
                forall|q: Coord| inside(q, sz) ==> #[trigger] flags@[index_of(q, sz)] == pred(q),
                base == collect_in_cols(pred, sz, c - 1),
                res@ == base + collect_in_col(pred, c as int, r - 1),
                forall|i: int| 0 <= i < res@.len() ==> inside(#[trigger] res@[i], sz),
            decreases size + 1 - r,
        {
            let p = Coord { col: c, row: r };
            proof {
                lemma_index_bounds(p, sz);
            }
            assert(collect_in_col(pred, c as int, r as int) == if pred(p) {
                collect_in_col(pred, c as int, r - 1).push(p)
            } else {
                collect_in_col(pred, c as int, r - 1)
            });
            assert(flags@[index_of(p, sz)] == pred(p));
            let ghost before = res@;
            if flags[p.to_index(size)] {
                res.push(p);
                assert(res@ =~= base + collect_in_col(pred, c as int, r - 1).push(p));
            }
            r = r + 1;
        }
        c = c + 1;
    }
    res
}

/// Flags, indexed like the board, of the points of `color` that touch the
/// chain whose points are marked.
pub fn touching_flags(
    cells: &Vec<Color>,
    size: u8,
    table: &Vec<Vec<Coord>>,
    marks: &Vec<bool>,
    Ghost(start): Ghost<Coord>,
    color: Color,
) -> (flags: Vec<bool>)
    requires
        size < 127,
        cells.len() == size * size,
        neighbour_table(table@, size as int),
        marks.len() == cells.len(),
        forall|x: Coord|
            inside(x, size as int) ==> marks@[index_of(x, size as int)] == in_chain(
                cells@,
                size as int,
                start,
                x,
            ),
    ensures
        flags.len() == cells.len(),
        forall|l: Coord|
            inside(l, size as int) ==> flags@[index_of(l, size as int)] == touches(
                cells@,
                size as int,
                start,
                l,
                color,
            ),
{
    let ghost sz = size as int;
    let n = cells.len();
    let mut flags: Vec<bool> = Vec::new();
    let mut i: usize = 0;
    while i < n
        invariant
            i <= n,
            n == cells.len(),
            size < 127,
            sz == size as int,
            cells.len() == sz * sz,
            neighbour_table(table@, sz),
            marks.len() == n,
            forall|x: Coord| inside(x, sz) ==> marks@[index_of(x, sz)] == in_chain(cells@, sz, start, x),
            flags.len() == i,
            forall|k: int| 0 <= k < i ==> #[trigger] flags@[k] == touches(cells@, sz, start, coord_of(k, sz), color),
        decreases n - i,
    {
        proof {
            lemma_index_of_coord(i as int, sz);
        }
        let l = Coord::from_index(i, size);
        assert(l == coord_of(i as int, sz));
        let mut found = false;
        if cells[i] == color {
            let nb = &table[i];
            let mut j: usize = 0;
            while j < nb.len()
                invariant
                    j <= nb.len(),
                    size < 127,
                    sz == size as int,
                    inside(l, sz),
                    i == index_of(l, sz),
                    n == cells.len(),
                    cells.len() == sz * sz,
                    nb@ == inside_only(neighbour_candidates(l), sz),
                    marks.len() == n,
                    forall|x: Coord| inside(x, sz) ==> marks@[index_of(x, sz)] == in_chain(cells@, sz, start, x),
                    found == exists|k: int| 0 <= k < j && in_chain(cells@, sz, start, #[trigger] nb@[k]),
                decreases nb.len() - j,
            {
                let y = nb[j];
                proof {
                    lemma_inside_only_contains(neighbour_candidates(l), sz, y);
                    assert(nb@.contains(y));
                    lemma_neighbours_exact(l, sz, y);
                    lemma_index_bounds(y, sz);
                }
                if marks[y.to_index(size)] {
                    found = true;
                }
                proof {
                    if found && !(exists|k: int| 0 <= k < j && in_chain(cells@, sz, start, #[trigger] nb@[k])) {
                        assert(in_chain(cells@, sz, start, nb@[j as int]));
                    }
                }
                j = j + 1;
            }
            proof {
                if found {
                    let k = choose|k: int| 0 <= k < nb@.len() && in_chain(cells@, sz, start, #[trigger] nb@[k]);
                    let x = nb@[k];
                    lemma_inside_only_contains(neighbour_candidates(l), sz, x);
                    assert(nb@.contains(x));
                    lemma_neighbours_exact(l, sz, x);
                    assert(in_chain(cells@, sz, start, x) && adjacent(x, l));
                } else {
                    assert forall|x: Coord| !(#[trigger] in_chain(cells@, sz, start, x) && adjacent(x, l)) by {
                        if in_chain(cells@, sz, start, x) && adjacent(x, l) {
                            lemma_chain_color(cells@, sz, start, x);
                            lemma_neighbours_exact(l, sz, x);
                            lemma_inside_only_contains(neighbour_candidates(l), sz, x);
                            let k = choose|k: int| 0 <= k < nb@.len() && nb@[k] == x;
                        }
                    }
                }
            }
        }
        flags.push(found);
        i = i + 1;
    }
    proof {
        assert forall|l: Coord| inside(l, sz) implies flags@[index_of(l, sz)] == touches(
            cells@,
            sz,
            start,
            l,
            color,
        ) by {
            lemma_coord_of_index(l, sz);
        }
    }
    flags
}

} // verus!
