//! Reading ahead for a chain in danger: moves that get it out of atari, and
//! the ladder that catches a chain with two liberties or lets it run.
//!
//! Reading plays the candidate move on a copy of the board and reads on from
//! there. A play that captures stones gives back points, so the number of
//! vacant points need not fall; such a step is not read further: an escape
//! that captures counts as a fix, and an attack that captures does not count
//! as catching the chain. Every other step leaves one point fewer, which
//! bounds the reading. An attack counts as catching a chain only where it
//! leaves the chain one liberty.
use vstd::prelude::*;

use super::chain::ChainView;
use super::chains::chain_heads;
use super::chains::chain_of;
use super::chains::chain_through;
use super::chains::is_head;
use super::chains::numbered_chain;
use super::coord::adjacent;
use super::coord::inside;
use super::hypotheticals::other_liberties;
use super::movement::move_color;
use super::movement::move_coord;
use super::opposite_color;
use super::position::in_chain;
use super::position::is_liberty;
use super::position::lemma_chain_start;
use super::position::lemma_collect_points_members;
use super::rules::legality;
use super::rules::play_result;
use super::rules::point_color;
use super::rules::vacant_count;
use super::rules::BoardView;
use super::Board;
use super::Chain;
use super::Color;
use super::Coord;
use super::Move;

verus! {

/// A stone of `color` on the point `p`.
pub open spec fn play_on(color: Color, p: Coord) -> Move {
    Move::Play(color, p.col, p.row)
}

/// Some stone of `g` touches some stone of `c`.
pub open spec fn chains_touch(g: ChainView, c: ChainView) -> bool {
    exists|i: int, j: int|
        #![trigger g.coords[i], c.coords[j]]
        0 <= i < g.coords.len() && 0 <= j < c.coords.len() && adjacent(g.coords[i], c.coords[j])
}

/// `c` is an opposing chain next to `g` in atari, and `g`'s player may
/// take its last liberty.
pub open spec fn capture_candidate(b: BoardView, g: ChainView, c: ChainView) -> bool {
    &&& c.color == opposite_color(g.color)
    &&& c.libs.len() == 1
    &&& chains_touch(g, c)
    &&& legality(b, play_on(g.color, c.libs[0])) is Ok
}

/// The captures that free `g`, taken among the chains numbered below `n`,
/// in the order of their numbers.
pub open spec fn capture_fixes(b: BoardView, g: ChainView, n: int) -> Seq<Move>
    decreases n,
{
    if n <= 0 {
        Seq::empty()
    } else {
        let rest = capture_fixes(b, g, n - 1);
        let c = numbered_chain(b, n - 1);
        if capture_candidate(b, g, c) {
            rest.push(play_on(g.color, c.libs[0]))
        } else {
            rest
        }
    }
}

/// Running out of atari at the liberty of `g`: the move if it leaves the
/// chain more than two other liberties, or exactly two and the ladder that
/// follows does not catch it.
pub open spec fn atari_escape(b: BoardView, g: ChainView) -> Seq<Move>
    decreases vacant_count(b), 0int,
{
    if g.libs.len() == 0 {
        Seq::empty()
    } else {
        let p = g.libs[0];
        let m = play_on(g.color, p);
        if legality(b, m) is Err || other_liberties(b, m) <= 1 {
            Seq::empty()
        } else if other_liberties(b, m) > 2 {
            seq![m]
        } else {
            let b2 = play_result(b, m);
            if vacant_count(b2) < vacant_count(b) {
                if point_color(b2, p) == Color::Empty {
                    Seq::empty()
                } else if ladder_capture_from(b2, chain_through(b2, p), 0) is None {
                    seq![m]
                } else {
                    Seq::empty()
                }
            } else {
                seq![m]
            }
        }
    }
}

/// The moves that get `g`, a chain in atari, out of it: the captures of
/// the opposing chains next to it that are in atari too, then the escape.
pub open spec fn atari_fixes(b: BoardView, g: ChainView) -> Seq<Move>
    decreases vacant_count(b), 1int,
{
    capture_fixes(b, g, chain_heads(b).len() as int) + atari_escape(b, g)
}

/// The first liberty of `g`, from the `i`-th on, where the opponent catches
/// it: a chain with one liberty is caught by taking it; one with two is
/// caught when, after the opponent takes one, nothing gets it out of atari.
pub open spec fn ladder_capture_from(b: BoardView, g: ChainView, i: int) -> Option<Move>
    decreases vacant_count(b), g.libs.len() - i,
{
    if i < 0 || i >= g.libs.len() {
        None
    } else {
        let m = play_on(opposite_color(g.color), g.libs[i]);
        if legality(b, m) is Err {
            ladder_capture_from(b, g, i + 1)
        } else if g.libs.len() == 1 {
            Some(m)
        } else if g.libs.len() != 2 {
            ladder_capture_from(b, g, i + 1)
        } else {
            let b2 = play_result(b, m);
            let first = g.coords[0];
            if vacant_count(b2) < vacant_count(b) && point_color(b2, first) != Color::Empty {
                let g2 = chain_through(b2, first);
                if g2.libs.len() == 1 && atari_fixes(b2, g2).len() == 0 {
                    Some(m)
                } else {
                    ladder_capture_from(b, g, i + 1)
                }
            } else {
                ladder_capture_from(b, g, i + 1)
            }
        }
    }
}

/// The move with which the opponent catches `g`, if there is one.
pub open spec fn ladder_capture(b: BoardView, g: ChainView) -> Option<Move> {
    ladder_capture_from(b, g, 0)
}

/// The first liberty of `g`, from the `i`-th on, where its player may play
/// and either gain more than one other liberty or find no ladder.
pub open spec fn ladder_escape_from(b: BoardView, g: ChainView, i: int) -> Option<Move>
    decreases g.libs.len() - i,
{
    if i < 0 || i >= g.libs.len() {
        None
    } else {
        let m = play_on(g.color, g.libs[i]);
        if legality(b, m) is Ok && (other_liberties(b, m) > 1 || ladder_capture(b, g) is None) {
            Some(m)
        } else {
            ladder_escape_from(b, g, i + 1)
        }
    }
}

/// The move that runs `g` out of a ladder, if there is one.
pub open spec fn ladder_escape(b: BoardView, g: ChainView) -> Option<Move> {
    ladder_escape_from(b, g, 0)
}

/// The moves that save `g`: those that fix its atari when it has one
/// liberty, the ladder escape when it has two, none otherwise.
pub open spec fn group_savers(b: BoardView, g: ChainView) -> Seq<Move> {
    if g.libs.len() == 1 {
        atari_fixes(b, g)
    } else if g.libs.len() == 2 {
        match ladder_escape(b, g) {
            Some(m) => seq![m],
            None => Seq::empty(),
        }
    } else {
        Seq::empty()
    }
}

/// The move is the play, by `g`'s player, on the only liberty of an
/// opposing chain numbered below `n` that touches `g`.
pub open spec fn captures_neighbour(b: BoardView, g: ChainView, m: Move, n: int) -> bool {
    exists|k: int|
        0 <= k < n && (#[trigger] numbered_chain(b, k)).color == opposite_color(g.color) && numbered_chain(b, k).libs
            == seq![move_coord(m)] && chains_touch(g, numbered_chain(b, k)) && m == play_on(g.color, move_coord(m))
}

proof fn lemma_capture_fixes_capture(b: BoardView, g: ChainView, n: int)
    ensures
        forall|i: int|
            0 <= i < capture_fixes(b, g, n).len() ==> captures_neighbour(b, g, #[trigger] capture_fixes(b, g, n)[i], n),
    decreases n,
{
    if n > 0 {
        lemma_capture_fixes_capture(b, g, n - 1);
        let rest = capture_fixes(b, g, n - 1);
        let c = numbered_chain(b, n - 1);
        assert forall|i: int| 0 <= i < capture_fixes(b, g, n).len() implies captures_neighbour(
            b,
            g,
            #[trigger] capture_fixes(b, g, n)[i],
            n,
        ) by {
            if i < rest.len() {
                assert(capture_fixes(b, g, n)[i] == rest[i]);
                let m = rest[i];
                let k = choose|k: int|
                    0 <= k < n - 1 && (#[trigger] numbered_chain(b, k)).color == opposite_color(g.color)
                        && numbered_chain(b, k).libs == seq![move_coord(m)] && chains_touch(g, numbered_chain(b, k))
                        && m == play_on(g.color, move_coord(m));
                assert(0 <= k < n);
            } else {
                let m = capture_fixes(b, g, n)[i];
                assert(m == play_on(g.color, c.libs[0]));
                assert(move_coord(m) == c.libs[0]);
                assert(c.libs =~= seq![move_coord(m)]);
                assert(numbered_chain(b, n - 1).color == opposite_color(g.color));
            }
        }
    }
}

/// Each move that fixes an atari either runs, playing on the chain's own
/// liberty, or captures: it takes the only liberty of an opposing chain
/// that touches the chain in atari.
pub proof fn lemma_atari_fixes_run_or_capture(b: BoardView, g: ChainView)
    ensures
        forall|i: int|
            0 <= i < atari_fixes(b, g).len() ==> {
                let m = #[trigger] atari_fixes(b, g)[i];
                ||| g.libs.len() > 0 && m == play_on(g.color, g.libs[0])
                ||| captures_neighbour(b, g, m, chain_heads(b).len() as int)
            },
{
    let n = chain_heads(b).len() as int;
    lemma_capture_fixes_capture(b, g, n);
    let caps = capture_fixes(b, g, n);
    assert forall|i: int| 0 <= i < atari_fixes(b, g).len() implies {
        let m = #[trigger] atari_fixes(b, g)[i];
        ||| g.libs.len() > 0 && m == play_on(g.color, g.libs[0])
        ||| captures_neighbour(b, g, m, n)
    } by {
        if i < caps.len() {
            assert(atari_fixes(b, g)[i] == caps[i]);
        } else {
            assert(atari_fixes(b, g)[i] == atari_escape(b, g)[i - caps.len()]);
        }
    }
}

proof fn lemma_capture_fixes_keep(b: BoardView, g: ChainView, k: int, n: int)
    requires
        0 <= k < n,
        capture_candidate(b, g, numbered_chain(b, k)),
    ensures
        capture_fixes(b, g, n).contains(play_on(g.color, numbered_chain(b, k).libs[0])),
    decreases n,
{
    let x = play_on(g.color, numbered_chain(b, k).libs[0]);
    let rest = capture_fixes(b, g, n - 1);
    if n - 1 == k {
        assert(capture_fixes(b, g, n) == rest.push(x));
        assert(capture_fixes(b, g, n)[rest.len() as int] == x);
    } else {
        lemma_capture_fixes_keep(b, g, k, n - 1);
        let j = choose|j: int| 0 <= j < rest.len() && rest[j] == x;
        assert(capture_fixes(b, g, n)[j] == rest[j]);
    }
}

/// Every capture that frees a chain in atari is offered: where an opposing
/// chain touching it has a single liberty that its player may take, that
/// play is among the fixes.
pub proof fn lemma_atari_fixes_offer_captures(b: BoardView, g: ChainView, k: int)
    requires
        0 <= k < chain_heads(b).len(),
        numbered_chain(b, k).color == opposite_color(g.color),
        numbered_chain(b, k).libs.len() == 1,
        chains_touch(g, numbered_chain(b, k)),
        legality(b, play_on(g.color, numbered_chain(b, k).libs[0])) is Ok,
    ensures
        atari_fixes(b, g).contains(play_on(g.color, numbered_chain(b, k).libs[0])),
{
    let n = chain_heads(b).len() as int;
    lemma_capture_fixes_keep(b, g, k, n);
    let caps = capture_fixes(b, g, n);
    let x = play_on(g.color, numbered_chain(b, k).libs[0]);
    let j = choose|j: int| 0 <= j < caps.len() && caps[j] == x;
    assert(atari_fixes(b, g)[j] == caps[j]);
}

/// Running out of atari is offered when the play on the chain's liberty is
/// allowed and leaves the joined chain more than two other liberties.
pub proof fn lemma_atari_fixes_offer_running(b: BoardView, g: ChainView)
    requires
        g.libs.len() > 0,
        legality(b, play_on(g.color, g.libs[0])) is Ok,
        other_liberties(b, play_on(g.color, g.libs[0])) > 2,
    ensures
        atari_fixes(b, g).contains(play_on(g.color, g.libs[0])),
{
    let caps = capture_fixes(b, g, chain_heads(b).len() as int);
    assert(atari_escape(b, g) == seq![play_on(g.color, g.libs[0])]);
    assert(atari_fixes(b, g)[caps.len() as int] == play_on(g.color, g.libs[0]));
}

/// A chain of the board has a colour and a stone, and its stones and
/// liberties lie on the board.
pub proof fn lemma_chain_of_facts(b: BoardView, g: ChainView)
    requires
        chain_of(b, g),
        b.size < 127,
    ensures
        g.color != Color::Empty,
        g.coords.len() > 0,
        forall|i: int| 0 <= i < g.coords.len() ==> inside(#[trigger] g.coords[i], b.size),
        forall|i: int| 0 <= i < g.libs.len() ==> inside(#[trigger] g.libs[i], b.size),
{
    let k = choose|k: int| 0 <= k < chain_heads(b).len() && g == numbered_chain(b, k);
    let h = chain_heads(b)[k];
    let head_pred = |x: Coord| is_head(b, x);
    lemma_collect_points_members(head_pred, b.size);
    assert(head_pred(h));
    let member = |x: Coord| in_chain(b.cells, b.size, h, x);
    lemma_collect_points_members(member, b.size);
    lemma_chain_start(b.cells, b.size, h);
    assert(member(h));
    lemma_collect_points_members(|l: Coord| is_liberty(b.cells, b.size, h, l), b.size);
}

/// Whether two points touch along a line.
fn touching(a: Coord, b: Coord) -> (res: bool)
    ensures
        res == adjacent(a, b),
{
    let (ac, ar, bc, br) = (a.col as u16, a.row as u16, b.col as u16, b.row as u16);
    (ac == bc && (ar + 1 == br || br + 1 == ar)) || (ar == br && (ac + 1 == bc || bc + 1 == ac))
}

/// Whether some stone of `g` touches some stone of `c`.
fn chains_touching(g: &Chain, c: &Chain) -> (res: bool)
    ensures
        res == chains_touch(g@, c@),
{
    let gs = g.coords();
    let cs = c.coords();
    let mut i: usize = 0;
    while i < gs.len()
        invariant
            i <= gs.len(),
            gs@ == g@.coords,
            cs@ == c@.coords,
            forall|a: int, e: int| 0 <= a < i && 0 <= e < cs.len() ==> !adjacent(gs@[a], cs@[e]),
        decreases gs.len() - i,
    {
        let mut j: usize = 0;
        while j < cs.len()
            invariant
                i < gs.len(),
                j <= cs.len(),
                gs@ == g@.coords,
                cs@ == c@.coords,
                forall|a: int, e: int| 0 <= a < i && 0 <= e < cs.len() ==> !adjacent(gs@[a], cs@[e]),
                forall|e: int| 0 <= e < j ==> !adjacent(gs@[i as int], cs@[e]),
            decreases cs.len() - j,
        {
            if touching(gs[i], cs[j]) {
                assert(adjacent(g@.coords[i as int], c@.coords[j as int]));
                return true;
            }
            j = j + 1;
        }
        i = i + 1;
    }
    false
}

impl Board {
    /// The captures that free `group`: for each opposing chain next to it
    /// with one liberty, in the order of the chains' numbers, the play on
    /// that liberty if the rules allow it.
    fn atari_captures(&self, group: &Chain) -> (res: Vec<Move>)
        requires
            self.well_formed(),
            chain_of(self@, group@),
        ensures
            res@ == capture_fixes(self@, group@, chain_heads(self@).len() as int),
            forall|i: int|
                0 <= i < res@.len() ==> #[trigger] res@[i] is Play && move_color(res@[i]) == group@.color
                    && legality(self@, res@[i]) is Ok,
    {
        let ghost b = self@;
        let ghost g = group@;
        proof {
            self.lemma_well_formed();
            lemma_chain_of_facts(b, g);
        }
        let color = group.color();
        let enemy = color.opposite();
        let all = self.chains();
        let mut out: Vec<Move> = Vec::new();
        let mut k: usize = 0;
        while k < all.len()
            invariant
                k <= all.len(),
                b == self@,
                g == group@,
                self.well_formed(),
                color == g.color,
                color != Color::Empty,
                enemy == opposite_color(color),
                all.len() == chain_heads(b).len(),
                forall|i: int| 0 <= i < all.len() ==> (#[trigger] all@[i])@ == numbered_chain(b, i),
                out@ == capture_fixes(b, g, k as int),
                forall|i: int|
                    0 <= i < out@.len() ==> #[trigger] out@[i] is Play && move_color(out@[i]) == g.color
                        && legality(b, out@[i]) is Ok,
            decreases all.len() - k,
        {
            let c = &all[k];
            let libs = c.liberties();
            let ghost before = out@;
            if c.color() == enemy && libs.len() == 1 && chains_touching(group, c) {
                let p = libs[0];
                let m = Move::Play(color, p.col, p.row);
                if self.is_legal(m).is_ok() {
                    out.push(m);
                }
            }
            proof {
                let cv = numbered_chain(b, k as int);
                assert(all@[k as int]@ == cv);
                if capture_candidate(b, g, cv) {
                    assert(out@ =~= before.push(play_on(g.color, cv.libs[0])));
                } else {
                    assert(out@ =~= before);
                }
            }
            k = k + 1;
        }
        out
    }

    /// The moves that get `group`, a chain in atari, out of it: first the
    /// captures of neighbouring opposing chains that are in atari too, then
    /// the play on its liberty if that leaves it more than two other
    /// liberties, or two and the ladder that follows does not catch it.
    pub fn fix_atari(&self, group: &Chain) -> (res: Vec<Move>)
        requires
            self.well_formed(),
            chain_of(self@, group@),
            group@.libs.len() == 1,
        ensures
            forall|i: int|
                0 <= i < res@.len() ==> #[trigger] res@[i] is Play && move_color(res@[i]) == group@.color
                    && legality(self@, res@[i]) is Ok,
            res@ == atari_fixes(self@, group@),
        decreases vacant_count(self@), 0nat,
    {
        let ghost b = self@;
        let ghost g = group@;
        proof {
            self.lemma_well_formed();
            lemma_chain_of_facts(b, g);
        }
        let mut solutions = self.atari_captures(group);
        let ghost captures = solutions@;
        let p = group.liberties()[0];
        let color = group.color();
        let m = Move::Play(color, p.col, p.row);
        assert(m == play_on(g.color, g.libs[0]));
        let mut escape = false;
        if self.is_legal(m).is_ok() {
            if self.new_chain_liberties_greater_than(m, 2) {
                escape = true;
            } else if self.new_chain_liberties_greater_than(m, 1) {
                let mut cloned = self.clone();
                cloned.play_legal_move(m);
                let ghost b2 = cloned@;
                if cloned.vacant_point_count() < self.vacant_point_count() {
                    match cloned.get_chain(p) {
                        Some(gr) => {
                            escape = cloned.capture_ladder(&gr).is_none();
                        },
                        None => {},
                    }
                } else {
                    escape = true;
                }
                assert(escape <==> atari_escape(b, g) == seq![m]);
            }
        }
        if escape {
            solutions.push(m);
        }
        proof {
            if escape {
                assert(atari_escape(b, g) == seq![m]);
                assert(solutions@ =~= captures + atari_escape(b, g));
            } else {
                assert(atari_escape(b, g) =~= Seq::<Move>::empty());
                assert(solutions@ =~= captures + atari_escape(b, g));
            }
        }
        solutions
    }

    /// The move with which the opponent catches `group` in a ladder, if
    /// any: with one liberty, taking it; with two, the first taken after
    /// which nothing gets the chain out of atari.
    pub fn capture_ladder(&self, group: &Chain) -> (res: Option<Move>)
        requires
            self.well_formed(),
            chain_of(self@, group@),
        ensures
            res == ladder_capture(self@, group@),
            res matches Some(m) ==> m is Play && move_color(m) == opposite_color(group@.color) && legality(
                self@,
                m,
            ) is Ok,
        decreases vacant_count(self@), 0nat,
    {
        let ghost b = self@;
        let ghost g = group@;
        proof {
            self.lemma_well_formed();
            lemma_chain_of_facts(b, g);
        }
        let player = group.color().opposite();
        let first = group.coords()[0];
        let libs = group.liberties();
        let n = libs.len();
        let mut i: usize = 0;
        while i < n
            invariant
                i <= n,
                n == g.libs.len(),
                libs@ == g.libs,
                b == self@,
                g == group@,
                self.well_formed(),
                player == opposite_color(g.color),
                player != Color::Empty,
                first == g.coords[0],
                inside(first, b.size),
                forall|j: int| 0 <= j < g.libs.len() ==> inside(#[trigger] g.libs[j], b.size),
                ladder_capture_from(b, g, i as int) == ladder_capture(b, g),
            decreases n - i,
        {
            let p = libs[i];
            let m = Move::Play(player, p.col, p.row);
            assert(m == play_on(opposite_color(g.color), g.libs[i as int]));
            if self.is_legal(m).is_ok() {
                if n == 1 {
                    return Some(m);
                }
                if n == 2 {
                    let mut cloned = self.clone();
                    cloned.play_legal_move(m);
                    if cloned.vacant_point_count() < self.vacant_point_count() {
                        match cloned.get_chain(first) {
                            Some(gr) => {
                                if gr.liberties().len() == 1 && cloned.fix_atari(&gr).len() == 0 {
                                    return Some(m);
                                }
                            },
                            None => {},
                        }
                    }
                }
            }
            i = i + 1;
        }
        None
    }

    /// The move that runs `group` out of a ladder, if any: the first
    /// liberty where its player may play and either gain more than one
    /// other liberty or find that the opponent has no ladder.
    pub fn escape_ladder(&self, group: &Chain) -> (res: Option<Move>)
        requires
            self.well_formed(),
            chain_of(self@, group@),
        ensures
            res == ladder_escape(self@, group@),
            res matches Some(m) ==> m is Play && move_color(m) == group@.color && legality(self@, m) is Ok,
    {
        let ghost b = self@;
        let ghost g = group@;
        proof {
            self.lemma_well_formed();
            lemma_chain_of_facts(b, g);
        }
        let caught = self.capture_ladder(group).is_some();
        let color = group.color();
        let libs = group.liberties();
        let mut i: usize = 0;
        while i < libs.len()
            invariant
                i <= libs.len(),
                libs@ == g.libs,
                b == self@,
                g == group@,
                self.well_formed(),
                color == g.color,
                color != Color::Empty,
                caught == (ladder_capture(b, g) is Some),
                forall|j: int| 0 <= j < g.libs.len() ==> inside(#[trigger] g.libs[j], b.size),
                ladder_escape_from(b, g, i as int) == ladder_escape(b, g),
            decreases libs.len() - i,
        {
            let p = libs[i];
            let m = Move::Play(color, p.col, p.row);
            assert(m == play_on(g.color, g.libs[i as int]));
            if self.is_legal(m).is_ok() {
                if self.new_chain_liberties_greater_than(m, 1) || !caught {
                    return Some(m);
                }
            }
            i = i + 1;
        }
        None
    }

    /// The moves that save `group`: with one liberty, those that fix the
    /// atari; with two, the ladder escape if there is one; none otherwise.
    pub fn save_group(&self, group: &Chain) -> (res: Vec<Move>)
        requires
            self.well_formed(),
            chain_of(self@, group@),
        ensures
            res@ == group_savers(self@, group@),
            forall|i: int|
                0 <= i < res@.len() ==> #[trigger] res@[i] is Play && move_color(res@[i]) == group@.color
                    && legality(self@, res@[i]) is Ok,
    {
        let n = group.liberties().len();
        if n == 1 {
            self.fix_atari(group)
        } else if n == 2 {
            let mut ms: Vec<Move> = Vec::new();
            match self.escape_ladder(group) {
                Some(m) => ms.push(m),
                None => {},
            }
            assert(ms@ =~= group_savers(self@, group@));
            ms
        } else {
            let ms: Vec<Move> = Vec::new();
            assert(ms@ =~= group_savers(self@, group@));
            ms
        }
    }
}

} // verus!
