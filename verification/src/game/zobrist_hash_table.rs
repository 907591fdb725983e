//! The hashes of every position of a game so far, used to refuse a move
//! that repeats one of them (positional superko).
use vstd::prelude::*;

use super::hash::keyed_move;
use super::hash::keys_fit;
use super::hash::stone_toggled;
use super::hash::StoneKeys;
use crate::board::coord::inside;
use crate::board::movement::move_color;
use crate::board::opposite_color;
use crate::board::Board;
use crate::board::Color;
use crate::board::Coord;
use crate::board::Move;

verus! {

/// The keys of a game and the hash of each position it went through, the
/// empty board's first.
pub struct ZobristHashTable {
    keys: super::hash::ZobristHashTable,
    hashes: Vec<u64>,
}

/// The hash with the stones of `color` on the points of `s` toggled.
pub open spec fn stones_toggled(k: StoneKeys, hash: u64, color: Color, s: Seq<Coord>) -> u64
    decreases s.len(),
{
    if s.len() == 0 {
        hash
    } else {
        stone_toggled(k, stones_toggled(k, hash, color, s.drop_last()), Move::Play(color, s.last().col, s.last().row))
    }
}

/// The hash of the position after `m`, from the hash `last` of the position
/// before it and the stones the move removed.
pub open spec fn next_hash(k: StoneKeys, last: u64, m: Move, adv: Seq<Coord>, friend: Seq<Coord>) -> u64 {
    let color = move_color(m);
    stones_toggled(k, stones_toggled(k, stone_toggled(k, last, m), opposite_color(color), adv), color, friend)
}

/// All points of `s` are on the board.
pub open spec fn all_inside(s: Seq<Coord>, size: int) -> bool {
    forall|i: int| 0 <= i < s.len() ==> inside(#[trigger] s[i], size)
}

impl ZobristHashTable {
    pub closed spec fn keys(&self) -> StoneKeys {
        self.keys@
    }

    /// The hashes of the positions so far, oldest first.
    pub closed spec fn history(&self) -> Seq<u64> {
        self.hashes@
    }

    pub open spec fn well_formed(&self) -> bool {
        keys_fit(self.keys()) && self.history().len() > 0
    }

    /// Fresh keys, and the empty board as the only position so far.
    pub fn new(size: u8) -> (res: ZobristHashTable)
        ensures
            res.well_formed(),
            res.keys().size == size,
            res.history() == seq![0u64],
    {
        let mut hashes: Vec<u64> = Vec::new();
        hashes.push(0);
        ZobristHashTable { keys: super::hash::ZobristHashTable::new(size), hashes }
    }

    /// The same keys and history.
    pub fn copy(&self) -> (res: ZobristHashTable)
        ensures
            res.keys() == self.keys(),
            res.history() == self.history(),
    {
        let mut hashes: Vec<u64> = Vec::new();
        let mut i: usize = 0;
        while i < self.hashes.len()
            invariant
                i <= self.hashes.len(),
                hashes@ == self.hashes@.subrange(0, i as int),
            decreases self.hashes.len() - i,
        {
            hashes.push(self.hashes[i]);
            i = i + 1;
        }
        assert(hashes@ =~= self.hashes@);
        ZobristHashTable { keys: self.keys.copy(), hashes }
    }

    /// Records the position that `b` shows after `m` unless its hash was
    /// seen before, in which case the move repeats a position and is refused.
    pub fn check_and_update_super_ko(&mut self, m: &Move, b: &Board) -> (res: Result<(), ()>)
        requires
            old(self).well_formed(),
            keyed_move(old(self).keys(), *m),
            all_inside(b@.adv_stones_removed, old(self).keys().size),
            all_inside(b@.friend_stones_removed, old(self).keys().size),
        ensures
            final(self).keys() == old(self).keys(),
            ({
                let h = next_hash(
                    old(self).keys(),
                    old(self).history().last(),
                    *m,
                    b@.adv_stones_removed,
                    b@.friend_stones_removed,
                );
                &&& res is Err <==> old(self).history().contains(h)
                &&& res is Ok ==> final(self).history() == old(self).history().push(h)
                &&& res is Err ==> final(self).history() == old(self).history()
            }),
            final(self).well_formed(),
    {
        let hash = self.compute_hash(m, b);
        let mut i: usize = 0;
        while i < self.hashes.len()
            invariant
                i <= self.hashes.len(),
                *self == *old(self),
                old(self).well_formed(),
                hash == next_hash(old(self).keys(), old(self).history().last(), *m, b@.adv_stones_removed, b@.friend_stones_removed),
                forall|j: int| 0 <= j < i ==> self.hashes@[j] != hash,
            decreases self.hashes.len() - i,
        {
            if self.hashes[i] == hash {
                assert(self.hashes@[i as int] == hash);
                return Err(());
            }
            i = i + 1;
        }
        self.hashes.push(hash);
        Ok(())
    }

    fn compute_hash(&self, m: &Move, b: &Board) -> (res: u64)
        requires
            self.well_formed(),
            keyed_move(self.keys(), *m),
            all_inside(b@.adv_stones_removed, self.keys().size),
            all_inside(b@.friend_stones_removed, self.keys().size),
        ensures
            res == next_hash(self.keys(), self.history().last(), *m, b@.adv_stones_removed, b@.friend_stones_removed),
    {
        let color = *m.color();
        let opp = color.opposite();
        let mut hash = self.hashes[self.hashes.len() - 1];
        hash = self.keys.add_stone_to_hash(hash, m);
        let ghost h0 = hash;
        let adv = b.adv_stones_removed();
        let mut i: usize = 0;
        while i < adv.len()
            invariant
                self.well_formed(),
                i <= adv.len(),
                opp == opposite_color(color),
                all_inside(adv@, self.keys().size),
                hash == stones_toggled(self.keys(), h0, opp, adv@.subrange(0, i as int)),
            decreases adv.len() - i,
        {
            let c = adv[i];
            let mv = Move::Play(opp, c.col, c.row);
            assert(inside(adv@[i as int], self.keys().size));
            hash = self.keys.add_stone_to_hash(hash, &mv);
            assert(adv@.subrange(0, i + 1).drop_last() =~= adv@.subrange(0, i as int));
            i = i + 1;
        }
        assert(adv@.subrange(0, adv.len() as int) =~= adv@);
        let ghost h1 = hash;
        let friend = b.friend_stones_removed();
        let mut j: usize = 0;
        while j < friend.len()
            invariant
                self.well_formed(),
                j <= friend.len(),
                color == move_color(*m),
                all_inside(friend@, self.keys().size),
                hash == stones_toggled(self.keys(), h1, color, friend@.subrange(0, j as int)),
            decreases friend.len() - j,
        {
            let c = friend[j];
            let mv = Move::Play(color, c.col, c.row);
            assert(inside(friend@[j as int], self.keys().size));
            hash = self.keys.add_stone_to_hash(hash, &mv);
            assert(friend@.subrange(0, j + 1).drop_last() =~= friend@.subrange(0, j as int));
            j = j + 1;
        }
        assert(friend@.subrange(0, friend.len() as int) =~= friend@);
        hash
    }
}

} // verus!
