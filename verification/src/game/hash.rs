//! Zobrist keys for black and white stones; the empty board hashes to 0.
use vstd::prelude::*;

use crate::board::coord::index_of;
use crate::board::coord::inside;
use crate::board::movement::move_color;
use crate::board::movement::move_coord;
use crate::board::Color;
use crate::board::Move;
use crate::random::random_u64;

verus! {

/// One random key per point for a black stone and one for a white stone.
pub struct ZobristHashTable {
    black: Vec<u64>,
    size: u8,
    white: Vec<u64>,
}

/// The abstract content of a key table.
pub ghost struct StoneKeys {
    pub black: Seq<u64>,
    pub white: Seq<u64>,
    pub size: int,
}

impl View for ZobristHashTable {
    type V = StoneKeys;

    closed spec fn view(&self) -> StoneKeys {
        StoneKeys { black: self.black@, white: self.white@, size: self.size as int }
    }
}

/// Both tables have one key per point of the board.
pub open spec fn keys_fit(k: StoneKeys) -> bool {
    &&& k.black.len() == k.size * k.size
    &&& k.white.len() == k.size * k.size
}

/// The moves whose key can be looked up: those of no colour, and plays on
/// the board.
pub open spec fn keyed_move(k: StoneKeys, m: Move) -> bool {
    move_color(m) != Color::Empty ==> m is Play && inside(move_coord(m), k.size)
}

/// The key of the stone a move places: none for a move of no colour.
pub open spec fn stone_key(k: StoneKeys, m: Move) -> u64 {
    match move_color(m) {
        Color::Empty => 0,
        Color::Black => k.black[index_of(move_coord(m), k.size)],
        Color::White => k.white[index_of(move_coord(m), k.size)],
    }
}

/// The hash with the stone of `m` toggled.
pub open spec fn stone_toggled(k: StoneKeys, hash: u64, m: Move) -> u64 {
    hash ^ stone_key(k, m)
}

/// Toggling the same stone twice gives the hash back: removing a stone
/// undoes adding it.
pub proof fn lemma_stone_toggle_twice(k: StoneKeys, hash: u64, m: Move)
    ensures
        stone_toggled(k, stone_toggled(k, hash, m), m) == hash,
{
    let a = stone_key(k, m);
    assert(hash ^ a ^ a == hash) by (bit_vector);
}

/// The hash does not depend on the order in which stones are toggled.
pub proof fn lemma_stone_toggle_commutes(k: StoneKeys, hash: u64, m1: Move, m2: Move)
    ensures
        stone_toggled(k, stone_toggled(k, hash, m1), m2) == stone_toggled(k, stone_toggled(k, hash, m2), m1),
{
    let a = stone_key(k, m1);
    let b = stone_key(k, m2);
    assert(hash ^ a ^ b == hash ^ b ^ a) by (bit_vector);
}

impl ZobristHashTable {
    /// Random keys for a board of the given size.
    pub fn new(size: u8) -> (res: ZobristHashTable)
        ensures
            res@.size == size,
            keys_fit(res@),
    {
        proof {
            assert(size * size <= 255 * 255) by (nonlinear_arith)
                requires
                    size <= 255,
            ;
        }
        let n: usize = size as usize * size as usize;
        let mut black: Vec<u64> = Vec::new();
        let mut white: Vec<u64> = Vec::new();
        let mut i: usize = 0;
        while i < n
            invariant
                i <= n,
                n == size * size,
                black.len() == i,
                white.len() == i,
            decreases n - i,
        {
            black.push(random_u64());
            white.push(random_u64());
            i = i + 1;
        }
        ZobristHashTable { black, size, white }
    }

    /// The same keys.
    pub fn copy(&self) -> (res: ZobristHashTable)
        ensures
            res@ == self@,
    {
        let mut black: Vec<u64> = Vec::new();
        let mut white: Vec<u64> = Vec::new();
        let mut i: usize = 0;
        while i < self.black.len()
            invariant
                i <= self.black.len(),
                black@ == self.black@.subrange(0, i as int),
            decreases self.black.len() - i,
        {
            black.push(self.black[i]);
            i = i + 1;
        }
        let mut j: usize = 0;
        while j < self.white.len()
            invariant
                j <= self.white.len(),
                white@ == self.white@.subrange(0, j as int),
            decreases self.white.len() - j,
        {
            white.push(self.white[j]);
            j = j + 1;
        }
        assert(black@ =~= self.black@);
        assert(white@ =~= self.white@);
        ZobristHashTable { black, size: self.size, white }
    }

    pub fn size(&self) -> (res: u8)
        ensures
            res == self@.size,
    {
        self.size
    }

    /// The hash of the empty board.
    pub fn init_hash(&self) -> (res: u64)
        ensures
            res == 0,
    {
        0
    }

    /// The hash once the stone of `m` is added.
    pub fn add_stone_to_hash(&self, hash: u64, m: &Move) -> (res: u64)
        requires
            keys_fit(self@),
            keyed_move(self@, *m),
        ensures
            res == stone_toggled(self@, hash, *m),
    {
        hash ^ self.hash_for(m)
    }

    /// The hash once the stone of `m` is taken off again.
    pub fn remove_stone_from_hash(&self, hash: u64, m: &Move) -> (res: u64)
        requires
            keys_fit(self@),
            keyed_move(self@, *m),
        ensures
            res == stone_toggled(self@, hash, *m),
    {
        self.add_stone_to_hash(hash, m)
    }

    /// The key of the stone that `m` places.
    pub fn hash_for(&self, m: &Move) -> (res: u64)
        requires
            keys_fit(self@),
            keyed_move(self@, *m),
        ensures
            res == stone_key(self@, *m),
    {
        match *m.color() {
            Color::Empty => 0,
            Color::Black => {
                let p = m.coord();
                proof {
                    crate::board::position::lemma_index_bounds(p, self.size as int);
                }
                self.black[p.to_index(self.size)]
            },
            Color::White => {
                let p = m.coord();
                proof {
                    crate::board::position::lemma_index_bounds(p, self.size as int);
                }
                self.white[p.to_index(self.size)]
            },
        }
    }
}

} // verus!
