//! Win/play counts of the candidate moves of a search.
use vstd::prelude::*;

use crate::board::Color;
use crate::board::Move;

verus! {

/// How often a move was played out and how often that was a win.
#[derive(Clone, Copy, Debug, PartialEq, Eq, Structural)]
pub struct MoveStat {
    pub wins: usize,
    pub plays: usize,
}

/// The statistics of a move that was never played.
pub open spec fn zero_stat() -> MoveStat {
    MoveStat { wins: 0, plays: 0 }
}

/// Whether the win ratio of `a` is greater than that of `b`, where the ratio
/// is `wins / plays`, and 0 for a move that was never played.
pub open spec fn ratio_above(a: MoveStat, b: MoveStat) -> bool {
    if a.plays == 0 {
        false
    } else if b.plays == 0 {
        a.wins > 0
    } else {
        a.wins * b.plays > b.wins * a.plays
    }
}

/// The statistics after one more won play.
pub open spec fn with_win(s: MoveStat) -> MoveStat {
    MoveStat { wins: (s.wins + 1) as usize, plays: (s.plays + 1) as usize }
}

/// The statistics after one more lost play.
pub open spec fn with_loss(s: MoveStat) -> MoveStat {
    MoveStat { wins: s.wins, plays: (s.plays + 1) as usize }
}

/// The statistics of two sets of plays together.
pub open spec fn merged(a: MoveStat, b: MoveStat) -> MoveStat {
    MoveStat { wins: (a.wins + b.wins) as usize, plays: (a.plays + b.plays) as usize }
}

/// If `c` beats `b` and `a` does not, then `a` does not beat `c` either.
pub proof fn lemma_ratio_above_order(a: MoveStat, b: MoveStat, c: MoveStat)
    requires
        ratio_above(c, b),
        !ratio_above(a, b),
    ensures
        !ratio_above(a, c),
{
    if a.plays != 0 && c.plays != 0 && b.plays == 0 {
        assert(a.wins == 0);
        assert(a.wins * c.plays == 0);
        assert(c.wins * a.plays > 0) by (nonlinear_arith)
            requires
                c.wins > 0,
                a.plays > 0,
        ;
    }
    if a.plays != 0 && c.plays != 0 && b.plays != 0 {
        let (aw, ap, bw, bp, cw, cp) = (
            a.wins as int,
            a.plays as int,
            b.wins as int,
            b.plays as int,
            c.wins as int,
            c.plays as int,
        );
        assert(aw * cp <= cw * ap) by (nonlinear_arith)
            requires
                cw * bp > bw * cp,
                aw * bp <= bw * ap,
                ap > 0,
                bp > 0,
                cp > 0,
                aw >= 0,
                bw >= 0,
                cw >= 0,
        {
            assert(aw * bp * cp <= bw * ap * cp);
            assert(bw * cp * ap < cw * bp * ap);
            assert(aw * cp * bp < cw * ap * bp);
        }
    }
}

/// If `c` beats `b` and `a` does not, then `c` beats `a`.
pub proof fn lemma_ratio_above_strict(a: MoveStat, b: MoveStat, c: MoveStat)
    requires
        ratio_above(c, b),
        !ratio_above(a, b),
    ensures
        ratio_above(c, a),
{
    if b.plays != 0 {
        assert(c.wins > 0) by (nonlinear_arith)
            requires
                c.wins * b.plays > b.wins * c.plays,
                b.plays > 0,
        ;
    }
    if a.plays != 0 && b.plays == 0 {
        assert(c.wins * a.plays > a.wins * c.plays) by (nonlinear_arith)
            requires
                a.wins == 0,
                c.wins > 0,
                a.plays > 0,
        ;
    }
    if a.plays != 0 && b.plays != 0 {
        let (aw, ap, bw, bp, cw, cp) = (
            a.wins as int,
            a.plays as int,
            b.wins as int,
            b.plays as int,
            c.wins as int,
            c.plays as int,
        );
        assert(cw * ap > aw * cp) by (nonlinear_arith)
            requires
                cw * bp > bw * cp,
                aw * bp <= bw * ap,
                ap > 0,
                bp > 0,
                cp > 0,
                aw >= 0,
                bw >= 0,
                cw >= 0,
        {
            assert(aw * bp * cp <= bw * ap * cp);
            assert(bw * cp * ap < cw * bp * ap);
            assert(aw * cp * bp < cw * ap * bp);
        }
    }
}

/// A ratio above a positive ratio is positive.
pub proof fn lemma_ratio_above_positive(b: MoveStat, c: MoveStat)
    requires
        ratio_above(c, b),
        ratio_above(b, zero_stat()),
    ensures
        ratio_above(c, zero_stat()),
{
    assert(c.wins > 0) by (nonlinear_arith)
        requires
            c.wins * b.plays > b.wins * c.plays,
            b.wins > 0,
            c.plays > 0,
            b.plays > 0,
    ;
}

/// No ratio is above itself.
pub proof fn lemma_ratio_above_irreflexive(a: MoveStat)
    ensures
        !ratio_above(a, a),
{
}

impl MoveStat {
    pub fn new() -> (res: MoveStat)
        ensures
            res == zero_stat(),
    {
        MoveStat { wins: 0, plays: 0 }
    }

    pub fn won(&mut self)
        requires
            old(self).wins < usize::MAX,
            old(self).plays < usize::MAX,
        ensures
            *final(self) == with_win(*old(self)),
    {
        self.wins = self.wins + 1;
        self.plays = self.plays + 1;
    }

    pub fn lost(&mut self)
        requires
            old(self).plays < usize::MAX,
        ensures
            *final(self) == with_loss(*old(self)),
    {
        self.plays = self.plays + 1;
    }

    pub fn all_wins(&self) -> (res: bool)
        ensures
            res == (self.wins == self.plays),
    {
        self.wins == self.plays
    }

    pub fn all_losses(&self) -> (res: bool)
        ensures
            res == (self.wins == 0),
    {
        self.wins == 0
    }

    /// Whether the win ratio of `self` is greater than that of `other`.
    pub fn beats(&self, other: &MoveStat) -> (res: bool)
        ensures
            res == ratio_above(*self, *other),
    {
        if self.plays == 0 {
            false
        } else if other.plays == 0 {
            self.wins > 0
        } else {
            let aw: u128 = self.wins as u128;
            let ap: u128 = self.plays as u128;
            let bw: u128 = other.wins as u128;
            let bp: u128 = other.plays as u128;
            assert(aw * bp <= u128::MAX && bw * ap <= u128::MAX) by (nonlinear_arith)
                requires
                    aw <= u64::MAX,
                    ap <= u64::MAX,
                    bw <= u64::MAX,
                    bp <= u64::MAX,
            ;
            aw * bp > bw * ap
        }
    }

    pub fn merge(&mut self, ms: &MoveStat)
        requires
            old(self).wins + ms.wins <= usize::MAX,
            old(self).plays + ms.plays <= usize::MAX,
        ensures
            *final(self) == merged(*old(self), *ms),
    {
        self.wins = self.wins + ms.wins;
        self.plays = self.plays + ms.plays;
    }
}

/// Whether no move occurs twice among the entries.
pub open spec fn distinct_moves(s: Seq<(Move, MoveStat)>) -> bool {
    forall|i: int, j: int| 0 <= i < j < s.len() ==> #[trigger] s[i].0 != #[trigger] s[j].0
}

/// Whether `m` has an entry.
pub open spec fn tracks(s: Seq<(Move, MoveStat)>, m: Move) -> bool {
    exists|i: int| 0 <= i < s.len() && #[trigger] s[i].0 == m
}

/// The statistics of a set of candidate moves of one player; each move has
/// one entry, and moves that were not given at creation are not tracked.
pub struct MoveStats {
    color: Color,
    stats: Vec<(Move, MoveStat)>,
}

impl MoveStats {
    /// The entries, one per tracked move.
    pub closed spec fn entries(&self) -> Seq<(Move, MoveStat)> {
        self.stats@
    }

    /// The player whose moves these are.
    pub closed spec fn player(&self) -> Color {
        self.color
    }

    pub open spec fn well_formed(&self) -> bool {
        distinct_moves(self.entries())
    }

    /// One entry with no plays for each of the given moves.
    pub fn new(moves: &Vec<Move>, color: Color) -> (res: MoveStats)
        ensures
            res.well_formed(),
            res.player() == color,
            forall|m: Move| tracks(res.entries(), m) <==> moves@.contains(m),
            forall|i: int| 0 <= i < res.entries().len() ==> #[trigger] res.entries()[i].1 == zero_stat(),
    {
        let mut stats: Vec<(Move, MoveStat)> = Vec::new();
        let mut k: usize = 0;
        while k < moves.len()
            invariant
                k <= moves.len(),
                distinct_moves(stats@),
                forall|m: Move| tracks(stats@, m) <==> moves@.subrange(0, k as int).contains(m),
                forall|i: int| 0 <= i < stats@.len() ==> #[trigger] stats@[i].1 == zero_stat(),
            decreases moves.len() - k,
        {
            let m = moves[k];
            let mut found = false;
            let mut i: usize = 0;
            while i < stats.len()
                invariant
                    i <= stats.len(),
                    found == (exists|j: int| 0 <= j < i && #[trigger] stats@[j].0 == m),
                decreases stats.len() - i,
            {
                if stats[i].0 == m {
                    found = true;
                }
                i = i + 1;
            }
            let ghost old_stats = stats@;
            if !found {
                stats.push((m, MoveStat::new()));
                proof {
                    assert forall|x: Move| tracks(stats@, x) implies moves@.subrange(0, k + 1).contains(x) by {
                        let j = choose|j: int| 0 <= j < stats@.len() && #[trigger] stats@[j].0 == x;
                        if j < old_stats.len() {
                            assert(tracks(old_stats, x));
                            let pre0 = moves@.subrange(0, k as int);
                            let q = choose|q: int| 0 <= q < pre0.len() && #[trigger] pre0[q] == x;
                            assert(moves@.subrange(0, k + 1)[q] == x);
                        } else {
                            assert(moves@.subrange(0, k + 1)[k as int] == x);
                        }
                    }
                    assert forall|x: Move| moves@.subrange(0, k + 1).contains(x) implies tracks(stats@, x) by {
                        let pre = moves@.subrange(0, k + 1);
                        let q = choose|q: int| 0 <= q < pre.len() && #[trigger] pre[q] == x;
                        if q < k {
                            assert(moves@.subrange(0, k as int)[q] == x);
                            assert(tracks(old_stats, x));
                            let j = choose|j: int| 0 <= j < old_stats.len() && #[trigger] old_stats[j].0 == x;
                            assert(stats@[j].0 == x);
                        } else {
                            assert(stats@[old_stats.len() as int].0 == x);
                        }
                    }
                }
            } else {
                proof {
                    assert forall|x: Move| tracks(stats@, x) implies moves@.subrange(0, k + 1).contains(x) by {
                        let pre0 = moves@.subrange(0, k as int);
                            let q = choose|q: int| 0 <= q < pre0.len() && #[trigger] pre0[q] == x;
                        assert(moves@.subrange(0, k + 1)[q] == x);
                    }
                    assert forall|x: Move| moves@.subrange(0, k + 1).contains(x) implies tracks(stats@, x) by {
                        let pre = moves@.subrange(0, k + 1);
                        let q = choose|q: int| 0 <= q < pre.len() && #[trigger] pre[q] == x;
                        if q < k {
                            assert(moves@.subrange(0, k as int)[q] == x);
                        }
                    }
                }
            }
            k = k + 1;
        }
        assert(moves@.subrange(0, moves.len() as int) =~= moves@);
        MoveStats { color, stats }
    }

    /// The position of the entry of `m`, if it has one.
    fn position(&self, m: &Move) -> (res: Option<usize>)
        requires
            self.well_formed(),
        ensures
            match res {
                Some(i) => i < self.entries().len() && self.entries()[i as int].0 == *m,
                None => !tracks(self.entries(), *m),
            },
    {
        let mut i: usize = 0;
        while i < self.stats.len()
            invariant
                i <= self.stats.len(),
                forall|j: int| 0 <= j < i ==> #[trigger] self.stats@[j].0 != *m,
            decreases self.stats.len() - i,
        {
            if self.stats[i].0 == *m {
                return Some(i);
            }
            i = i + 1;
        }
        None
    }

    /// The statistics of `m`, if it is tracked.
    pub fn get(&self, m: &Move) -> (res: Option<MoveStat>)
        requires
            self.well_formed(),
        ensures
            match res {
                Some(s) => exists|i: int| 0 <= i < self.entries().len() && #[trigger] self.entries()[i] == (*m, s),
                None => !tracks(self.entries(), *m),
            },
    {
        match self.position(m) {
            Some(i) => {
                let s = self.stats[i].1;
                assert(self.entries()[i as int] == (*m, s));
                Some(s)
            },
            None => None,
        }
    }

    /// Counts a won play of `m`; an untracked move changes nothing.
    pub fn record_win(&mut self, m: Move)
        requires
            old(self).well_formed(),
            forall|i: int|
                0 <= i < old(self).entries().len() && #[trigger] old(self).entries()[i].0 == m
                    ==> old(self).entries()[i].1.wins < usize::MAX && old(self).entries()[i].1.plays
                    < usize::MAX,
        ensures
            final(self).well_formed(),
            final(self).player() == old(self).player(),
            final(self).entries().len() == old(self).entries().len(),
            forall|i: int|
                0 <= i < old(self).entries().len() ==> #[trigger] final(self).entries()[i] == (
                    old(self).entries()[i].0,
                    if old(self).entries()[i].0 == m {
                        with_win(old(self).entries()[i].1)
                    } else {
                        old(self).entries()[i].1
                    },
                ),
    {
        match self.position(&m) {
            Some(i) => {
                let (mv, st) = self.stats[i];
                let mut st2 = st;
                st2.won();
                self.stats.set(i, (mv, st2));
                proof {
                    assert forall|j: int| 0 <= j < self.stats@.len() && j != i implies self.stats@[j].0
                        != m by {
                        if j < i {
                            assert(old(self).stats@[j].0 != old(self).stats@[i as int].0);
                        } else {
                            assert(old(self).stats@[i as int].0 != old(self).stats@[j].0);
                        }
                    }
                }
            },
            None => {},
        }
    }

    /// Counts a lost play of `m`; an untracked move changes nothing.
    pub fn record_loss(&mut self, m: Move)
        requires
            old(self).well_formed(),
            forall|i: int|
                0 <= i < old(self).entries().len() && #[trigger] old(self).entries()[i].0 == m
                    ==> old(self).entries()[i].1.plays < usize::MAX,
        ensures
            final(self).well_formed(),
            final(self).player() == old(self).player(),
            final(self).entries().len() == old(self).entries().len(),
            forall|i: int|
                0 <= i < old(self).entries().len() ==> #[trigger] final(self).entries()[i] == (
                    old(self).entries()[i].0,
                    if old(self).entries()[i].0 == m {
                        with_loss(old(self).entries()[i].1)
                    } else {
                        old(self).entries()[i].1
                    },
                ),
    {
        match self.position(&m) {
            Some(i) => {
                let (mv, st) = self.stats[i];
                let mut st2 = st;
                st2.lost();
                self.stats.set(i, (mv, st2));
                proof {
                    assert forall|j: int| 0 <= j < self.stats@.len() && j != i implies self.stats@[j].0
                        != m by {
                        if j < i {
                            assert(old(self).stats@[j].0 != old(self).stats@[i as int].0);
                        } else {
                            assert(old(self).stats@[i as int].0 != old(self).stats@[j].0);
                        }
                    }
                }
            },
            None => {},
        }
    }

    /// Whether no tracked move has won a play.
    pub fn all_losses(&self) -> (res: bool)
        ensures
            res == (forall|i: int| 0 <= i < self.entries().len() ==> #[trigger] self.entries()[i].1.wins == 0),
    {
        let mut i: usize = 0;
        while i < self.stats.len()
            invariant
                i <= self.stats.len(),
                forall|j: int| 0 <= j < i ==> #[trigger] self.stats@[j].1.wins == 0,
            decreases self.stats.len() - i,
        {
            if !self.stats[i].1.all_losses() {
                assert(self.entries()[i as int].1.wins != 0);
                return false;
            }
            i = i + 1;
        }
        true
    }

    /// Whether no tracked move has lost a play.
    pub fn all_wins(&self) -> (res: bool)
        ensures
            res == (forall|i: int|
                0 <= i < self.entries().len() ==> #[trigger] self.entries()[i].1.wins == self.entries()[i].1.plays),
    {
        let mut i: usize = 0;
        while i < self.stats.len()
            invariant
                i <= self.stats.len(),
                forall|j: int| 0 <= j < i ==> #[trigger] self.stats@[j].1.wins == self.stats@[j].1.plays,
            decreases self.stats.len() - i,
        {
            if !self.stats[i].1.all_wins() {
                assert(self.entries()[i as int].1.wins != self.entries()[i as int].1.plays);
                return false;
            }
            i = i + 1;
        }
        true
    }

    /// The move with the highest win ratio and its statistics; a pass with
    /// no plays where no move has won a play.
    pub fn best(&self) -> (res: (Move, MoveStat))
        ensures
            (forall|i: int| 0 <= i < self.entries().len() ==> !ratio_above(#[trigger] self.entries()[i].1, zero_stat()))
                ==> res == (Move::Pass(self.player()), zero_stat()),
            (exists|i: int| 0 <= i < self.entries().len() && ratio_above(#[trigger] self.entries()[i].1, zero_stat()))
                ==> (exists|k: int|
                0 <= k < self.entries().len() && #[trigger] self.entries()[k] == res && forall|j: int|
                    0 <= j < k ==> ratio_above(res.1, #[trigger] self.entries()[j].1)),
            forall|i: int| 0 <= i < self.entries().len() ==> !ratio_above(#[trigger] self.entries()[i].1, res.1),
    {
        let mut m = Move::Pass(self.color);
        let mut ms = MoveStat::new();
        let mut i: usize = 0;
        while i < self.stats.len()
            invariant
                i <= self.stats.len(),
                forall|j: int| 0 <= j < i ==> !ratio_above(#[trigger] self.stats@[j].1, ms),
                ((m, ms) == (Move::Pass(self.color), zero_stat()) && forall|j: int|
                    0 <= j < i ==> !ratio_above(#[trigger] self.stats@[j].1, zero_stat())) || (
                ratio_above(ms, zero_stat()) && exists|k: int|
                    0 <= k < i && #[trigger] self.stats@[k] == (m, ms) && forall|j: int|
                        0 <= j < k ==> ratio_above(ms, #[trigger] self.stats@[j].1)),
            decreases self.stats.len() - i,
        {
            let (m_new, s) = self.stats[i];
            if s.beats(&ms) {
                proof {
                    assert forall|j: int| 0 <= j < i implies !ratio_above(#[trigger] self.stats@[j].1, s) by {
                        lemma_ratio_above_order(self.stats@[j].1, ms, s);
                    }
                    assert forall|j: int| 0 <= j < i implies ratio_above(s, #[trigger] self.stats@[j].1) by {
                        lemma_ratio_above_strict(self.stats@[j].1, ms, s);
                    }
                    lemma_ratio_above_irreflexive(s);
                    if ms != zero_stat() {
                        lemma_ratio_above_positive(ms, s);
                    }
                    assert(self.stats@[i as int] == (m_new, s));
                }
                m = m_new;
                ms = s;
            } else {
                proof {
                    if (m, ms) == (Move::Pass(self.color), zero_stat()) {
                    }
                }
            }
            i = i + 1;
        }
        proof {
            if exists|j: int| 0 <= j < self.stats@.len() && ratio_above(#[trigger] self.stats@[j].1, zero_stat()) {
                let j = choose|j: int| 0 <= j < self.stats@.len() && ratio_above(#[trigger] self.stats@[j].1, zero_stat());
                assert(!ratio_above(self.stats@[j].1, ms));
            }
            if (m, ms) != (Move::Pass(self.color), zero_stat()) {
                let k = choose|k: int| 0 <= k < self.stats@.len() && #[trigger] self.stats@[k] == (m, ms);
                assert(ratio_above(self.entries()[k].1, zero_stat()));
            }
        }
        (m, ms)
    }

    /// Adds the statistics of `ms` to those of the moves tracked here; moves
    /// tracked only in `ms` are left out.
    pub fn merge(&mut self, ms: &MoveStats)
        requires
            old(self).well_formed(),
            ms.well_formed(),
            forall|i: int, j: int|
                0 <= i < old(self).entries().len() && 0 <= j < ms.entries().len()
                    && #[trigger] old(self).entries()[i].0 == #[trigger] ms.entries()[j].0
                    ==> old(self).entries()[i].1.wins + ms.entries()[j].1.wins <= usize::MAX
                    && old(self).entries()[i].1.plays + ms.entries()[j].1.plays <= usize::MAX,
        ensures
            final(self).well_formed(),
            final(self).player() == old(self).player(),
            final(self).entries().len() == old(self).entries().len(),
            forall|i: int| 0 <= i < old(self).entries().len() ==> #[trigger] final(self).entries()[i].0 == old(self).entries()[i].0,
            forall|i: int, j: int|
                0 <= i < old(self).entries().len() && 0 <= j < ms.entries().len()
                    && #[trigger] old(self).entries()[i].0 == #[trigger] ms.entries()[j].0
                    ==> final(self).entries()[i].1 == merged(old(self).entries()[i].1, ms.entries()[j].1),
            forall|i: int|
                0 <= i < old(self).entries().len() && !tracks(ms.entries(), #[trigger] old(self).entries()[i].0)
                    ==> final(self).entries()[i].1 == old(self).entries()[i].1,
    {
        let ghost orig = self.stats@;
        let mut i: usize = 0;
        while i < self.stats.len()
            invariant
                i <= self.stats.len(),
                self.stats@.len() == orig.len(),
                distinct_moves(orig),
                distinct_moves(ms.stats@),
                self.color == old(self).color,
                orig == old(self).stats@,
                forall|k: int| 0 <= k < orig.len() ==> #[trigger] self.stats@[k].0 == orig[k].0,
                forall|k: int| i <= k < orig.len() ==> #[trigger] self.stats@[k] == orig[k],
                forall|k: int, j: int|
                    0 <= k < orig.len() && 0 <= j < ms.stats@.len() && #[trigger] orig[k].0 == #[trigger] ms.stats@[j].0
                        ==> orig[k].1.wins + ms.stats@[j].1.wins <= usize::MAX && orig[k].1.plays + ms.stats@[j].1.plays
                        <= usize::MAX,
                forall|k: int, j: int|
                    0 <= k < i && 0 <= j < ms.stats@.len() && #[trigger] orig[k].0 == #[trigger] ms.stats@[j].0
                        ==> self.stats@[k].1 == merged(orig[k].1, ms.stats@[j].1),
                forall|k: int| 0 <= k < i && !tracks(ms.stats@, #[trigger] orig[k].0) ==> self.stats@[k].1 == orig[k].1,
            decreases self.stats.len() - i,
        {
            let (mv, st) = self.stats[i];
            match ms.position(&mv) {
                Some(j) => {
                    let mut st2 = st;
                    st2.merge(&ms.stats[j].1);
                    self.stats.set(i, (mv, st2));
                    proof {
                        assert forall|j2: int| 0 <= j2 < ms.stats@.len() && orig[i as int].0 == #[trigger] ms.stats@[j2].0
                            implies j2 == j by {
                            if j2 != j {
                                if j2 < j {
                                    assert(ms.stats@[j2].0 != ms.stats@[j as int].0);
                                } else {
                                    assert(ms.stats@[j as int].0 != ms.stats@[j2].0);
                                }
                            }
                        }
                    }
                },
                None => {},
            }
            i = i + 1;
        }
        proof {
            assert forall|a: int, b: int| 0 <= a < b < self.stats@.len() implies #[trigger] self.stats@[a].0
                != #[trigger] self.stats@[b].0 by {
                assert(orig[a].0 != orig[b].0);
            }
        }
    }
}

} // verus!
