//! Zobrist keys over three tables, one per colour a point can have.
use vstd::prelude::*;

use super::coord::inside;
use super::movement::move_color;
use super::movement::move_coord;
use super::Color;
use super::Coord;
use super::Move;
use crate::random::random_u64;

verus! {

/// Random keys, one per point for each of empty, black and white, and the
/// board size they were made for.
pub struct ZobristHashTable {
    table: Vec<u64>,
    size: u8,
}

/// The abstract content of a key table.
pub ghost struct ZobristKeys {
    pub keys: Seq<u64>,
    pub size: int,
}

impl View for ZobristHashTable {
    type V = ZobristKeys;

    closed spec fn view(&self) -> ZobristKeys {
        ZobristKeys { keys: self.table@, size: self.size as int }
    }
}

/// The exclusive or of all the values of `s`.
pub open spec fn xor_all(s: Seq<u64>) -> u64
    decreases s.len(),
{
    if s.len() == 0 {
        0
    } else {
        xor_all(s.drop_last()) ^ s.last()
    }
}

/// The number of the table of a colour.
pub open spec fn color_table(c: Color) -> int {
    match c {
        Color::Empty => 0,
        Color::Black => 1,
        Color::White => 2,
    }
}

/// Where the key of colour table `t` and point `p` is kept: the table number
/// times the size, plus the position of the point row by row.
pub open spec fn key_position(t: int, p: Coord, size: int) -> int {
    t * size + (p.row - 1) * size + p.col - 1
}

/// The key of a stone of colour `c` on `p`.
pub open spec fn key_of(k: ZobristKeys, c: Color, p: Coord) -> u64 {
    k.keys[key_position(color_table(c), p, k.size)]
}

/// The hash once the stone of a play is toggled: the key of the empty point
/// and the key of the stone.
pub open spec fn toggled(k: ZobristKeys, hash: u64, m: Move) -> u64 {
    hash ^ key_of(k, Color::Empty, move_coord(m)) ^ key_of(k, move_color(m), move_coord(m))
}

/// Toggling the same stone twice gives the hash back.
pub proof fn lemma_toggle_twice(k: ZobristKeys, hash: u64, m: Move)
    ensures
        toggled(k, toggled(k, hash, m), m) == hash,
{
    let a = key_of(k, Color::Empty, move_coord(m));
    let b = key_of(k, move_color(m), move_coord(m));
    assert(hash ^ a ^ b ^ a ^ b == hash) by (bit_vector);
}

/// The order in which two stones are toggled does not matter.
pub proof fn lemma_toggle_commutes(k: ZobristKeys, hash: u64, m1: Move, m2: Move)
    ensures
        toggled(k, toggled(k, hash, m1), m2) == toggled(k, toggled(k, hash, m2), m1),
{
    let a = key_of(k, Color::Empty, move_coord(m1));
    let b = key_of(k, move_color(m1), move_coord(m1));
    let c = key_of(k, Color::Empty, move_coord(m2));
    let d = key_of(k, move_color(m2), move_coord(m2));
    assert(hash ^ a ^ b ^ c ^ d == hash ^ c ^ d ^ a ^ b) by (bit_vector);
}

impl ZobristHashTable {
    /// Three tables of `size * size` random keys.
    pub fn new(size: u8) -> (res: ZobristHashTable)
        ensures
            res@.size == size,
            res@.keys.len() == 3 * (size * size),
    {
        proof {
            assert(size * size <= 255 * 255) by (nonlinear_arith)
                requires
                    size <= 255,
            ;
        }
        let n: usize = size as usize * size as usize;
        let mut table: Vec<u64> = Vec::new();
        let mut t: usize = 0;
        while t < 3
            invariant
                t <= 3,
                n == size * size,
                table.len() == t * n,
            decreases 3 - t,
        {
            let mut i: usize = 0;
            while i < n
                invariant
                    t < 3,
                    i <= n,
                    n == size * size,
                    table.len() == t * n + i,
                decreases n - i,
            {
                table.push(random_u64());
                i = i + 1;
            }
            proof {
                assert(t * n + n == (t + 1) * n) by (nonlinear_arith);
            }
            t = t + 1;
        }
        assert(table.len() == 3 * (size * size)) by (nonlinear_arith)
            requires
                table.len() == 3 * n,
                n == size * size,
        ;
        ZobristHashTable { table, size }
    }

    pub fn size(&self) -> (res: u8)
        ensures
            res == self@.size,
    {
        self.size
    }

    /// The hash of the empty board: all the keys of the empty table together.
    pub fn init_hash(&self) -> (res: u64)
        ensures
            res == xor_all(self@.keys.subrange(0, (self@.keys.len() / 3) as int)),
    {
        let n = self.table.len() / 3;
        let mut h: u64 = 0;
        let mut i: usize = 0;
        while i < n
            invariant
                i <= n,
                n == self.table.len() / 3,
                h == xor_all(self.table@.subrange(0, i as int)),
            decreases n - i,
        {
            h = h ^ self.table[i];
            assert(self.table@.subrange(0, i + 1).drop_last() =~= self.table@.subrange(0, i as int));
            i = i + 1;
        }
        h
    }

    /// The hash with the stone of a play placed on its empty point.
    pub fn add_stone_to_hash(&self, hash: u64, m: &Move) -> (res: u64)
        requires
            self@.keys.len() == 3 * (self@.size * self@.size),
            *m is Play,
            inside(move_coord(*m), self@.size),
        ensures
            res == toggled(self@, hash, *m),
    {
        let p = m.coord();
        let e = self.get_hash_for(Color::Empty, p);
        let s = self.get_hash_for(*m.color(), p);
        hash ^ e ^ s
    }

    /// The hash with the stone of a play taken off again.
    pub fn remove_stone_from_hash(&self, hash: u64, m: &Move) -> (res: u64)
        requires
            self@.keys.len() == 3 * (self@.size * self@.size),
            *m is Play,
            inside(move_coord(*m), self@.size),
        ensures
            res == toggled(self@, hash, *m),
    {
        self.add_stone_to_hash(hash, m)
    }

    fn get_hash_for(&self, c: Color, p: Coord) -> (res: u64)
        requires
            self@.keys.len() == 3 * (self@.size * self@.size),
            inside(p, self@.size),
        ensures
            res == key_of(self@, c, p),
    {
        let t: usize = match c {
            Color::Empty => 0,
            Color::Black => 1,
            Color::White => 2,
        };
        let s = self.size as usize;
        proof {
            let r = (p.row - 1) as int;
            let sz = s as int;
            assert(t * sz + r * sz + p.col - 1 < 3 * (sz * sz)) by (nonlinear_arith)
                requires
                    0 <= t <= 2,
                    0 <= r < sz,
                    1 <= p.col <= sz,
                    sz <= 255,
            ;
            assert(0 <= r * sz <= 254 * 255) by (nonlinear_arith)
                requires
                    0 <= r < sz,
                    sz <= 255,
            ;
        }
        self.table[t * s + (p.row as usize - 1) * s + p.col as usize - 1]
    }
}

} // verus!
