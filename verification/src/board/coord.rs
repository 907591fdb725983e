//! Intersections of the board, numbered from 1 in both directions.
use vstd::prelude::*;

use crate::text::decimal;
use crate::text::decimal_value;
use crate::text::lemma_decimal_digits;
use crate::text::push_char;
use crate::text::push_decimal;

verus! {

/// A point of the board: column and row, both counted from 1.
#[derive(Clone, Copy, Debug, PartialEq, Eq, Hash, PartialOrd, Ord, Structural)]
pub struct Coord {
    pub col: u8,
    pub row: u8,
}

/// Whether `c` lies on a board with `size` lines.
pub open spec fn inside(c: Coord, size: int) -> bool {
    1 <= c.col <= size && 1 <= c.row <= size
}

/// Whether two points are orthogonal neighbours.
pub open spec fn adjacent(a: Coord, b: Coord) -> bool {
    ||| a.col == b.col && (a.row + 1 == b.row || b.row + 1 == a.row)
    ||| a.row == b.row && (a.col + 1 == b.col || b.col + 1 == a.col)
}

/// Whether two points touch diagonally.
pub open spec fn diagonal(a: Coord, b: Coord) -> bool {
    (a.col + 1 == b.col || b.col + 1 == a.col) && (a.row + 1 == b.row || b.row + 1 == a.row)
}

/// The position of a point in a row-major vector of the board.
pub open spec fn index_of(c: Coord, size: int) -> int {
    (c.col - 1) + (c.row - 1) * size
}

/// One less, wrapping from 0 to 255 as the byte arithmetic does.
pub open spec fn dec_u8(x: u8) -> u8 {
    if x == 0 { 255 } else { (x - 1) as u8 }
}

/// One more, wrapping from 255 to 0 as the byte arithmetic does.
pub open spec fn inc_u8(x: u8) -> u8 {
    if x == 255 { 0 } else { (x + 1) as u8 }
}

/// The elements of `s` that lie on the board, in their order.
pub open spec fn inside_only(s: Seq<Coord>, size: int) -> Seq<Coord>
    decreases s.len(),
{
    if s.len() == 0 {
        Seq::empty()
    } else {
        let rest = inside_only(s.drop_last(), size);
        if inside(s.last(), size) {
            rest.push(s.last())
        } else {
            rest
        }
    }
}

/// The four orthogonal candidates, west, south, north, east.
pub open spec fn neighbour_candidates(c: Coord) -> Seq<Coord> {
    seq![
        Coord { col: dec_u8(c.col), row: c.row },
        Coord { col: c.col, row: dec_u8(c.row) },
        Coord { col: c.col, row: inc_u8(c.row) },
        Coord { col: inc_u8(c.col), row: c.row },
    ]
}

/// The four diagonal candidates of a point that is not on the byte range's edge.
pub open spec fn diagonal_candidates(c: Coord) -> Seq<Coord> {
    seq![
        Coord { col: (c.col - 1) as u8, row: (c.row - 1) as u8 },
        Coord { col: (c.col + 1) as u8, row: (c.row - 1) as u8 },
        Coord { col: (c.col + 1) as u8, row: (c.row + 1) as u8 },
        Coord { col: (c.col - 1) as u8, row: (c.row + 1) as u8 },
    ]
}

/// The offsets of the points at Manhattan distance one to three, in the
/// order in which they are visited: from the top row down, left to right.
pub open spec fn manhattan_offsets() -> Seq<(int, int)> {
    seq![
        (0, 3),
        (-1, 2), (0, 2), (1, 2),
        (-2, 1), (-1, 1), (0, 1), (1, 1), (2, 1),
        (-3, 0), (-2, 0), (-1, 0), (1, 0), (2, 0), (3, 0),
        (-2, -1), (-1, -1), (0, -1), (1, -1), (2, -1),
        (-1, -2), (0, -2), (1, -2),
        (0, -3),
    ]
}

/// The point at an offset, with its coordinates truncated to bytes.
pub open spec fn offset_point(c: Coord, off: (int, int)) -> Coord {
    Coord { col: (c.col + off.0) as u8, row: (c.row + off.1) as u8 }
}

/// Whether the point at an offset is kept: both coordinates positive
/// and the truncated point on the board.
pub open spec fn offset_kept(c: Coord, off: (int, int), size: int) -> bool {
    c.col + off.0 > 0 && c.row + off.1 > 0 && inside(offset_point(c, off), size)
}

/// The kept points for the first offsets of `offs`.
pub open spec fn offset_points(c: Coord, offs: Seq<(int, int)>, size: int) -> Seq<Coord>
    decreases offs.len(),
{
    if offs.len() == 0 {
        Seq::empty()
    } else {
        let rest = offset_points(c, offs.drop_last(), size);
        if offset_kept(c, offs.last(), size) {
            rest.push(offset_point(c, offs.last()))
        } else {
            rest
        }
    }
}

/// ASCII lower-casing of a character.
pub open spec fn ascii_lower(c: char) -> char {
    if 'A' <= c <= 'Z' {
        ((c as int) + 32) as char
    } else {
        c
    }
}

/// The column named by a GTP letter; there is no `I` column.
pub open spec fn gtp_column(letter: char) -> int {
    let l = ascii_lower(letter) as int;
    if l > 'i' as int {
        l - 97
    } else {
        l - 96
    }
}

/// Whether a GTP letter names a column: an ASCII character whose lower
/// case is not below `a`.
pub open spec fn is_gtp_letter(letter: char) -> bool {
    (letter as int) < 128 && ascii_lower(letter) as int >= 97
}

/// Whether every character of `s` is a decimal digit.
pub open spec fn all_digits(s: Seq<char>) -> bool {
    forall|i: int| 0 <= i < s.len() ==> '0' <= #[trigger] s[i] <= '9'
}

/// The number written by a sequence of decimal digits.
pub open spec fn digits_value(s: Seq<char>) -> int
    decreases s.len(),
{
    if s.len() == 0 {
        0
    } else {
        digits_value(s.drop_last()) * 10 + (s.last() as int - 48)
    }
}

/// The byte that a text denotes as `u8::from_str` reads it: an optional
/// `+`, then one or more digits whose value is at most 255.
pub open spec fn u8_text(s: Seq<char>) -> Option<u8> {
    let d = if s.len() > 0 && s[0] == '+' { s.drop_first() } else { s };
    if d.len() > 0 && all_digits(d) && digits_value(d) <= 255 {
        Some(digits_value(d) as u8)
    } else {
        None
    }
}

/// Whether a text is a GTP vertex that `Coord::from_gtp` reads.
pub open spec fn is_gtp_vertex(s: Seq<char>) -> bool {
    s.len() > 0 && is_gtp_letter(s[0]) && u8_text(s.drop_first()) is Some
}

/// The point that a GTP vertex names.
pub open spec fn gtp_vertex_coord(s: Seq<char>) -> Coord {
    Coord { col: gtp_column(s[0]) as u8, row: u8_text(s.drop_first())->0 }
}

/// The GTP letter of a column below 191: letters skip `I`.
pub open spec fn gtp_letter(col: u8) -> char {
    if col <= 8 {
        (65 + col - 1) as char
    } else {
        (65 + col) as char
    }
}

/// The GTP text of a point.
pub open spec fn gtp_text(c: Coord) -> Seq<char> {
    seq![gtp_letter(c.col)] + decimal(c.row as nat)
}

/// The two ways of writing digits' values agree.
proof fn lemma_digit_values_agree(s: Seq<char>)
    ensures
        digits_value(s) == decimal_value(s),
    decreases s.len(),
{
    if s.len() > 0 {
        lemma_digit_values_agree(s.drop_last());
    }
}

/// Reading the GTP text of a point gives the point back, for the columns
/// `A` to `Z` (without `I`).
pub proof fn lemma_gtp_round_trip(c: Coord)
    requires
        1 <= c.col <= 25,
    ensures
        is_gtp_vertex(gtp_text(c)),
        gtp_vertex_coord(gtp_text(c)) == c,
{
    let t = gtp_text(c);
    let d = decimal(c.row as nat);
    lemma_decimal_digits(c.row as nat);
    lemma_digit_values_agree(d);
    assert(t.drop_first() =~= d);
    assert(t[0] == gtp_letter(c.col));
    assert(d[0] != '+');
    assert(all_digits(d));
    assert(u8_text(d) == Some(c.row));
}

/// Every kept point lies on the board.
pub proof fn lemma_offset_points_inside(c: Coord, offs: Seq<(int, int)>, size: int)
    ensures
        forall|j: int|
            0 <= j < offset_points(c, offs, size).len() ==> inside(#[trigger] offset_points(c, offs, size)[j], size),
    decreases offs.len(),
{
    if offs.len() > 0 {
        lemma_offset_points_inside(c, offs.drop_last(), size);
        let rest = offset_points(c, offs.drop_last(), size);
        let all = offset_points(c, offs, size);
        assert forall|j: int| 0 <= j < all.len() implies inside(#[trigger] all[j], size) by {
            if j < rest.len() {
                assert(all[j] == rest[j]);
            }
        }
    }
}

/// The distance between two points along the lines of the board.
pub open spec fn manhattan(a: Coord, b: Coord) -> int {
    (if a.col >= b.col { a.col - b.col } else { b.col - a.col }) + (if a.row >= b.row {
        a.row - b.row
    } else {
        b.row - a.row
    })
}

/// Every offset at distance one to three is among the listed offsets.
proof fn lemma_offsets_listed(dx: int, dy: int)
    requires
        1 <= (if dx >= 0 { dx } else { -dx }) + (if dy >= 0 { dy } else { -dy }) <= 3,
    ensures
        manhattan_offsets().contains((dx, dy)),
{
    let s = manhattan_offsets();
    if dx == 0 && dy == 3 {
        assert(s[0] == (0int, 3int));
    } else if dx == -1 && dy == 2 {
        assert(s[1] == (-1int, 2int));
    } else if dx == 0 && dy == 2 {
        assert(s[2] == (0int, 2int));
    } else if dx == 1 && dy == 2 {
        assert(s[3] == (1int, 2int));
    } else if dx == -2 && dy == 1 {
        assert(s[4] == (-2int, 1int));
    } else if dx == -1 && dy == 1 {
        assert(s[5] == (-1int, 1int));
    } else if dx == 0 && dy == 1 {
        assert(s[6] == (0int, 1int));
    } else if dx == 1 && dy == 1 {
        assert(s[7] == (1int, 1int));
    } else if dx == 2 && dy == 1 {
        assert(s[8] == (2int, 1int));
    } else if dx == -3 && dy == 0 {
        assert(s[9] == (-3int, 0int));
    } else if dx == -2 && dy == 0 {
        assert(s[10] == (-2int, 0int));
    } else if dx == -1 && dy == 0 {
        assert(s[11] == (-1int, 0int));
    } else if dx == 1 && dy == 0 {
        assert(s[12] == (1int, 0int));
    } else if dx == 2 && dy == 0 {
        assert(s[13] == (2int, 0int));
    } else if dx == 3 && dy == 0 {
        assert(s[14] == (3int, 0int));
    } else if dx == -2 && dy == -1 {
        assert(s[15] == (-2int, -1int));
    } else if dx == -1 && dy == -1 {
        assert(s[16] == (-1int, -1int));
    } else if dx == 0 && dy == -1 {
        assert(s[17] == (0int, -1int));
    } else if dx == 1 && dy == -1 {
        assert(s[18] == (1int, -1int));
    } else if dx == 2 && dy == -1 {
        assert(s[19] == (2int, -1int));
    } else if dx == -1 && dy == -2 {
        assert(s[20] == (-1int, -2int));
    } else if dx == 0 && dy == -2 {
        assert(s[21] == (0int, -2int));
    } else if dx == 1 && dy == -2 {
        assert(s[22] == (1int, -2int));
    } else if dx == 0 && dy == -3 {
        assert(s[23] == (0int, -3int));
    }
}

/// A kept offset gives one of the kept points.
proof fn lemma_offset_points_has(c: Coord, offs: Seq<(int, int)>, size: int, k: int)
    requires
        0 <= k < offs.len(),
        offset_kept(c, offs[k], size),
    ensures
        offset_points(c, offs, size).contains(offset_point(c, offs[k])),
    decreases offs.len(),
{
    let rest = offset_points(c, offs.drop_last(), size);
    if k < offs.len() - 1 {
        lemma_offset_points_has(c, offs.drop_last(), size, k);
        let j = choose|j: int| 0 <= j < rest.len() && rest[j] == offset_point(c, offs[k]);
        assert(offset_points(c, offs, size)[j] == rest[j]);
    } else {
        assert(offset_points(c, offs, size) == rest.push(offset_point(c, offs.last())));
        assert(offset_points(c, offs, size)[rest.len() as int] == offset_point(c, offs[k]));
    }
}

/// Every point of the board at distance one to three from `c` is among the
/// points `manhattan_distance_three_neighbours` lists.
pub proof fn lemma_near_points_listed(c: Coord, q: Coord, size: int)
    requires
        inside(q, size),
        size <= 255,
        1 <= manhattan(c, q) <= 3,
    ensures
        offset_points(c, manhattan_offsets(), size).contains(q),
{
    let d = (q.col - c.col, q.row - c.row);
    lemma_offsets_listed(d.0, d.1);
    let offs = manhattan_offsets();
    let k = choose|k: int| 0 <= k < offs.len() && offs[k] == d;
    assert(offset_point(c, d) == q);
    lemma_offset_points_has(c, offs, size, k);
}

/// The smallest of four numbers.
pub open spec fn min4(a: int, b: int, c: int, d: int) -> int {
    let ab = if a <= b { a } else { b };
    let cd = if c <= d { c } else { d };
    if ab <= cd { ab } else { cd }
}

pub proof fn lemma_digits_value_grows(s: Seq<char>, d: char)
    requires
        all_digits(s),
        '0' <= d <= '9',
    ensures
        digits_value(s.push(d)) == digits_value(s) * 10 + (d as int - 48),
        digits_value(s.push(d)) >= digits_value(s),
        digits_value(s) >= 0,
    decreases s.len(),
{
    assert(s.push(d).drop_last() =~= s);
    if s.len() > 0 {
        lemma_digits_value_grows(s.drop_last(), s.last());
        assert(s.drop_last().push(s.last()) =~= s);
    }
}

/// Whether a text is a GTP vertex: a column letter and a row number.
pub fn is_gtp_vertex_text(s: &str) -> (res: bool)
    ensures
        res == is_gtp_vertex(s@),
{
    let n = s.unicode_len();
    if n == 0 {
        return false;
    }
    let first = s.get_char(0);
    let lower: char = if 'A' <= first && first <= 'Z' {
        ((first as u8) + 32) as char
    } else {
        first
    };
    if !((first as u32) < 128 && (lower as u32) >= 97) {
        return false;
    }
    assert(s@.subrange(1, s@.len() as int) =~= s@.drop_first());
    parse_u8_from(s, 1).is_some()
}

/// Reads the decimal byte value of `s[from..]` as `u8::from_str` does.
pub(crate) fn parse_u8_from(s: &str, from: usize) -> (res: Option<u8>)
    requires
        from <= s@.len(),
    ensures
        res == u8_text(s@.subrange(from as int, s@.len() as int)),
{
    let len = s.unicode_len();
    let ghost t = s@.subrange(from as int, s@.len() as int);
    let mut start = from;
    if from < len && s.get_char(from) == '+' {
        start = from + 1;
    }
    let ghost d = s@.subrange(start as int, s@.len() as int);
    assert(d =~= if t.len() > 0 && t[0] == '+' { t.drop_first() } else { t });
    if start >= len {
        return None;
    }
    let mut value: u32 = 0;
    let mut i = start;
    #[verifier::loop_isolation(false)]
    while i < len
        invariant
            start <= i <= len,
            len == s@.len(),
            d == s@.subrange(start as int, s@.len() as int),
            all_digits(s@.subrange(start as int, i as int)),
            value <= 255,
            value == digits_value(s@.subrange(start as int, i as int)),
        decreases len - i,
    {
        let c = s.get_char(i);
        if c < '0' || c > '9' {
            assert(!all_digits(d)) by {
                assert(d[i - start] == c);
            }
            return None;
        }
        let ghost pre = s@.subrange(start as int, i as int);
        proof {
            lemma_digits_value_grows(pre, c);
            assert(s@.subrange(start as int, i + 1) =~= pre.push(c));
        }
        let digit: u32 = (c as u32) - 48;
        let next: u32 = value * 10 + digit;
        if next > 255 {
            proof {
                let full = s@.subrange(start as int, s@.len() as int);
                lemma_prefix_value_bound(full, (i + 1 - start) as nat);
                assert(full.subrange(0, i + 1 - start) =~= s@.subrange(start as int, i + 1));
                assert(digits_value(s@.subrange(start as int, i + 1)) > 255);
            }
            return None;
        }
        value = next;
        i = i + 1;
    }
    assert(s@.subrange(start as int, i as int) =~= d);
    Some(value as u8)
}

/// A prefix of digits never has a larger value than the whole digit text.
pub proof fn lemma_prefix_value_bound(s: Seq<char>, k: nat)
    requires
        k <= s.len(),
    ensures
        all_digits(s) ==> digits_value(s.subrange(0, k as int)) <= digits_value(s),
    decreases s.len() - k,
{
    if k < s.len() && all_digits(s) {
        lemma_prefix_value_bound(s, k + 1);
        let p = s.subrange(0, k as int);
        assert(s.subrange(0, k + 1 as int) =~= p.push(s[k as int]));
        assert(all_digits(p));
        lemma_digits_value_grows(p, s[k as int]);
    } else if k == s.len() {
        assert(s.subrange(0, k as int) =~= s);
    }
}

impl Coord {
    pub fn new(col: u8, row: u8) -> (res: Coord)
        ensures
            res == (Coord { col, row }),
    {
        Coord { col, row }
    }

    /// The point stored at position `id` of a row-major vector.
    pub fn from_index(id: usize, board_size: u8) -> (res: Coord)
        requires
            board_size > 0,
            (id as int) / (board_size as int) + 1 <= usize::MAX,
        ensures
            res.col == ((id as int) % (board_size as int) + 1) as u8,
            res.row == ((id as int) / (board_size as int) + 1) as u8,
    {
        let s = board_size as usize;
        let col = #[verifier::truncate] ((id % s + 1) as u8);
        let row = #[verifier::truncate] ((id / s + 1) as u8);
        Coord { col, row }
    }

    /// All the points of a board, row by row from the first row.
    pub fn for_board_size(size: u8) -> (res: Vec<Coord>)
        ensures
            res.len() == size * size,
            forall|i: int, j: int|
                0 <= i < size && 0 <= j < size ==> #[trigger] res@[i * size + j] == (Coord {
                    col: (j + 1) as u8,
                    row: (i + 1) as u8,
                }),
    {
        let mut coords: Vec<Coord> = Vec::new();
        let mut i: u8 = 0;
        while i < size
            invariant
                i <= size,
                coords.len() == i * size,
                forall|a: int, b: int|
                    0 <= a < i && 0 <= b < size ==> #[trigger] coords@[a * size + b] == (Coord {
                        col: (b + 1) as u8,
                        row: (a + 1) as u8,
                    }),
            decreases size - i,
        {
            let mut j: u8 = 0;
            while j < size
                invariant
                    i < size,
                    j <= size,
                    coords.len() == i * size + j,
                    forall|a: int, b: int|
                        0 <= a < i && 0 <= b < size ==> #[trigger] coords@[a * size + b] == (Coord {
                            col: (b + 1) as u8,
                            row: (a + 1) as u8,
                        }),
                    forall|b: int|
                        0 <= b < j ==> #[trigger] coords@[i * size + b] == (Coord {
                            col: (b + 1) as u8,
                            row: (i + 1) as u8,
                        }),
                decreases size - j,
            {
                proof {
                    assert forall|a: int, b: int| 0 <= a < i && 0 <= b < size implies #[trigger] (a * size + b) < i * size by {
                        assert(a * size + b < i * size) by (nonlinear_arith)
                            requires 0 <= a < i, 0 <= b < size;
                    }
                }
                coords.push(Coord { col: j + 1, row: i + 1 });
                j = j + 1;
            }
            proof {
                assert((i + 1) * size == i * size + size) by (nonlinear_arith);
                assert forall|a: int, b: int|
                    0 <= a < i + 1 && 0 <= b < size implies #[trigger] coords@[a * size + b] == (Coord {
                        col: (b + 1) as u8,
                        row: (a + 1) as u8,
                    }) by {
                    if a == i {
                        assert(coords@[i * size + b] == (Coord { col: (b + 1) as u8, row: (i + 1) as u8 }));
                    }
                }
            }
            i = i + 1;
        }
        coords
    }

    /// The orthogonal neighbours on the board, in the order west, south,
    /// north, east.
    pub fn neighbours(&self, board_size: u8) -> (res: Vec<Coord>)
        requires
            self.col != 127 && self.col != 128,
            self.row != 127 && self.row != 128,
        ensures
            res@ == inside_only(neighbour_candidates(*self), board_size as int),
    {
        let west = Coord { col: if self.col == 0 { 255 } else { self.col - 1 }, row: self.row };
        let south = Coord { col: self.col, row: if self.row == 0 { 255 } else { self.row - 1 } };
        let north = Coord { col: self.col, row: if self.row == 255 { 0 } else { self.row + 1 } };
        let east = Coord { col: if self.col == 255 { 0 } else { self.col + 1 }, row: self.row };
        let cands = [west, south, north, east];
        let ghost spec_cands = neighbour_candidates(*self);
        assert(cands@ =~= spec_cands);
        collect_inside(&cands, board_size)
    }

    /// The diagonal neighbours on the board, in the order south-west,
    /// south-east, north-east, north-west.
    pub fn diagonals(&self, board_size: u8) -> (res: Vec<Coord>)
        requires
            1 <= self.col <= 254,
            1 <= self.row <= 254,
        ensures
            res@ == inside_only(diagonal_candidates(*self), board_size as int),
    {
        let cands = [
            Coord { col: self.col - 1, row: self.row - 1 },
            Coord { col: self.col + 1, row: self.row - 1 },
            Coord { col: self.col + 1, row: self.row + 1 },
            Coord { col: self.col - 1, row: self.row + 1 },
        ];
        assert(cands@ =~= diagonal_candidates(*self));
        collect_inside(&cands, board_size)
    }

    pub fn to_index(&self, board_size: u8) -> (res: usize)
        requires
            self.col >= 1,
            self.row >= 1,
        ensures
            res == index_of(*self, board_size as int),
    {
        proof {
            let r = (self.row - 1) as int;
            let s = board_size as int;
            assert(0 <= r * s <= 254 * 255) by (nonlinear_arith)
                requires
                    0 <= r <= 254,
                    0 <= s <= 255,
            ;
        }
        (self.col as usize - 1) + (self.row as usize - 1) * board_size as usize
    }

    pub fn is_inside(&self, board_size: u8) -> (res: bool)
        ensures
            res == inside(*self, board_size as int),
    {
        1 <= self.col && self.col <= board_size && 1 <= self.row && self.row <= board_size
    }

    /// The number of lines between the point and the nearest edge.
    pub fn distance_to_border(&self, board_size: u8) -> (res: u8)
        requires
            inside(*self, board_size as int),
        ensures
            res == min4(
                self.col - 1,
                self.row - 1,
                board_size - self.col,
                board_size - self.row,
            ),
    {
        let a = self.col - 1;
        let b = self.row - 1;
        let c = board_size - self.col;
        let d = board_size - self.row;
        let ab = if a <= b { a } else { b };
        let cd = if c <= d { c } else { d };
        if ab <= cd { ab } else { cd }
    }

    /// The points within Manhattan distance three (the point itself
    /// excluded) that lie on the board.
    pub fn manhattan_distance_three_neighbours(&self, board_size: u8) -> (res: Vec<Coord>)
        ensures
            res@ == offset_points(*self, manhattan_offsets(), board_size as int),
    {
        let offsets: [(i8, i8); 24] = [
            (0, 3),
            (-1, 2), (0, 2), (1, 2),
            (-2, 1), (-1, 1), (0, 1), (1, 1), (2, 1),
            (-3, 0), (-2, 0), (-1, 0), (1, 0), (2, 0), (3, 0),
            (-2, -1), (-1, -1), (0, -1), (1, -1), (2, -1),
            (-1, -2), (0, -2), (1, -2),
            (0, -3),
        ];
        let ghost offs = manhattan_offsets();
        assert(offsets@.len() == offs.len());
        assert forall|k: int| 0 <= k < 24 implies
            (offsets@[k].0 as int, offsets@[k].1 as int) == #[trigger] offs[k] by {}
        let mut res: Vec<Coord> = Vec::new();
        let mut k: usize = 0;
        while k < 24
            invariant
                k <= 24,
                offsets@.len() == 24,
                offs == manhattan_offsets(),
                forall|m: int| 0 <= m < 24 ==>
                    (offsets@[m].0 as int, offsets@[m].1 as int) == #[trigger] offs[m],
                res@ == offset_points(*self, offs.subrange(0, k as int), board_size as int),
            decreases 24 - k,
        {
            let (co, ro) = offsets[k];
            let c: i16 = self.col as i16 + co as i16;
            let r: i16 = self.row as i16 + ro as i16;
            let ghost pre = offs.subrange(0, k as int);
            assert(offs.subrange(0, k + 1).drop_last() =~= pre);
            if c > 0 && r > 0 {
                let p = Coord { col: c as u8, row: r as u8 };
                if p.is_inside(board_size) {
                    res.push(p);
                }
            }
            k = k + 1;
        }
        assert(offs.subrange(0, 24) =~= offs);
        res
    }

    /// Reads a GTP vertex such as `K10`; there is no `I` column.
    pub fn from_gtp(gtp_vertex: &str) -> (res: Coord)
        requires
            is_gtp_vertex(gtp_vertex@),
        ensures
            res == gtp_vertex_coord(gtp_vertex@),
    {
        let first = gtp_vertex.get_char(0);
        let lower: char = if 'A' <= first && first <= 'Z' {
            ((first as u8) + 32) as char
        } else {
            first
        };
        let l = lower as u8;
        let col: u8 = if lower > 'i' { l - 97 } else { l - 96 };
        let row = parse_u8_from(gtp_vertex, 1);
        assert(gtp_vertex@.subrange(1, gtp_vertex@.len() as int) =~= gtp_vertex@.drop_first());
        match row {
            Some(r) => Coord { col, row: r },
            None => vstd::pervasive::unreached(),
        }
    }

    /// The GTP vertex of the point; there is no `I` column.
    pub fn to_gtp(&self) -> (res: String)
        requires
            self.col < 191,
        ensures
            res@ == gtp_text(*self),
    {
        let letter: u8 = if self.col <= 8 { 65 + self.col - 1 } else { 65 + self.col };
        let mut s = String::new();
        push_char(&mut s, letter as char);
        push_decimal(&mut s, self.row as u128);
        assert(s@ =~= gtp_text(*self));
        s
    }
}

/// Keeps the candidates that lie on the board, in order.
fn collect_inside(cands: &[Coord; 4], board_size: u8) -> (res: Vec<Coord>)
    ensures
        res@ == inside_only(cands@, board_size as int),
{
    let mut res: Vec<Coord> = Vec::new();
    let mut k: usize = 0;
    while k < 4
        invariant
            k <= 4,
            cands@.len() == 4,
            res@ == inside_only(cands@.subrange(0, k as int), board_size as int),
        decreases 4 - k,
    {
        let c = cands[k];
        assert(cands@.subrange(0, k + 1).drop_last() =~= cands@.subrange(0, k as int));
        if c.is_inside(board_size) {
            res.push(c);
        }
        k = k + 1;
    }
    assert(cands@.subrange(0, 4) =~= cands@);
    res
}

} // verus!
