//! Prior plays and wins of a candidate move, from what the board shows
//! before any playout.
use vstd::prelude::*;

use crate::board::coord::inside;
use crate::board::coord::lemma_near_points_listed;
use crate::board::coord::manhattan;
use crate::board::coord::manhattan_offsets;
use crate::board::coord::min4;
use crate::board::coord::offset_points;
use crate::board::hypotheticals::board_play;
use crate::board::hypotheticals::not_self_atari;
use crate::board::movement::move_coord;
use crate::board::rules::point_color;
use crate::board::rules::BoardView;
use crate::board::Board;
use crate::board::Color;
use crate::board::Coord;
use crate::board::Move;
use crate::config::UctPriorsConfig;

verus! {

/// Whether every point within three lines of the play is vacant.
pub fn vacant_around(board: &Board, m: &Move) -> (res: bool)
    requires
        board.well_formed(),
        board_play(board@, *m),
    ensures
        res == in_empty_area(board@, move_coord(*m)),
{
    let p = m.coord();
    let pts = p.manhattan_distance_three_neighbours(board.size());
    proof {
        board.lemma_well_formed();
        crate::board::coord::lemma_offset_points_inside(p, manhattan_offsets(), board@.size);
    }
    let mut k: usize = 0;
    while k < pts.len()
        invariant
            board.well_formed(),
            k <= pts.len(),
            p == move_coord(*m),
            pts@ == offset_points(p, manhattan_offsets(), board@.size),
            forall|j: int| 0 <= j < pts.len() ==> crate::board::coord::inside(#[trigger] pts@[j], board@.size),
            board@.cells.len() == board@.size * board@.size,
            forall|j: int| 0 <= j < k ==> point_color(board@, #[trigger] pts@[j]) == Color::Empty,
        decreases pts.len() - k,
    {
        let q = pts[k];
        proof {
            crate::board::position::lemma_index_bounds(q, board@.size);
        }
        if board.color(&q) != Color::Empty {
            assert(point_color(board@, pts@[k as int]) != Color::Empty);
            return false;
        }
        k = k + 1;
    }
    true
}

/// Prior plays and wins of a move.
pub struct Prior {
    plays: usize,
    wins: usize,
}

/// The number of lines between a point and the nearest edge.
pub open spec fn border_distance(p: Coord, size: int) -> int {
    min4(p.col - 1, p.row - 1, size - p.col, size - p.row)
}

/// Every point within Manhattan distance three of `p` is vacant.
pub open spec fn in_empty_area(b: BoardView, p: Coord) -> bool {
    let pts = offset_points(p, manhattan_offsets(), b.size);
    forall|k: int| 0 <= k < pts.len() ==> point_color(b, #[trigger] pts[k]) == Color::Empty
}

/// The negative prior (plays only) for putting the own chain in atari.
pub open spec fn self_atari_plays(b: BoardView, m: Move, cfg: UctPriorsConfig) -> nat {
    if m is Play && !not_self_atari(b, m) {
        cfg.self_atari as nat
    } else {
        0
    }
}

/// The empty-area prior applies: it is switched on, the play is on one of
/// the first three lines and all around it is vacant.
pub open spec fn empty_area_applies(b: BoardView, m: Move, cfg: UctPriorsConfig) -> bool {
    m is Play && cfg.use_empty && border_distance(move_coord(m), b.size) <= 2 && in_empty_area(b, move_coord(m))
}

/// The prior plays of a move.
pub open spec fn prior_plays(b: BoardView, m: Move, cfg: UctPriorsConfig) -> nat {
    self_atari_plays(b, m, cfg) + if empty_area_applies(b, m, cfg) {
        cfg.empty as nat
    } else {
        0
    }
}

/// The prior wins of a move: the empty-area prior counts as wins on the
/// third line only.
pub open spec fn prior_wins(b: BoardView, m: Move, cfg: UctPriorsConfig) -> nat {
    if empty_area_applies(b, m, cfg) && border_distance(move_coord(m), b.size) > 1 {
        cfg.empty as nat
    } else {
        0
    }
}

/// A play with a stone within three lines of it (counted along the lines)
/// is in no empty area: it gets the negative self-atari prior, if any, and
/// nothing else, and no prior wins.
pub proof fn lemma_crowded_play_gets_no_empty_prior(b: BoardView, m: Move, cfg: UctPriorsConfig, q: Coord)
    requires
        m is Play,
        b.size <= 255,
        inside(q, b.size),
        point_color(b, q) != Color::Empty,
        1 <= manhattan(move_coord(m), q) <= 3,
    ensures
        prior_plays(b, m, cfg) == (if !not_self_atari(b, m) {
            cfg.self_atari as nat
        } else {
            0
        }),
        prior_wins(b, m, cfg) == 0,
{
    lemma_near_points_listed(move_coord(m), q, b.size);
    let pts = offset_points(move_coord(m), manhattan_offsets(), b.size);
    let k = choose|k: int| 0 <= k < pts.len() && pts[k] == q;
    assert(point_color(b, pts[k]) != Color::Empty);
    assert(!in_empty_area(b, move_coord(m)));
}

/// The priors of a move: a self-atari costs plays and never brings wins;
/// where the empty-area prior is on, a play in an empty area on the first
/// two lines gets plays only, on the third line as many wins as plays, and
/// farther from the edge nothing.
pub proof fn lemma_prior_counts(b: BoardView, m: Move, cfg: UctPriorsConfig)
    ensures
        prior_wins(b, m, cfg) == (if m is Play && cfg.use_empty && border_distance(move_coord(m), b.size) == 2
            && in_empty_area(b, move_coord(m)) {
            cfg.empty as nat
        } else {
            0
        }),
        prior_plays(b, m, cfg) == (if m is Play && !not_self_atari(b, m) {
            cfg.self_atari as nat
        } else {
            0
        }) + (if m is Play && cfg.use_empty && border_distance(move_coord(m), b.size) <= 2 && in_empty_area(
            b,
            move_coord(m),
        ) {
            cfg.empty as nat
        } else {
            0
        }),
        border_distance(move_coord(m), b.size) > 2 ==> prior_wins(b, m, cfg) == 0 && prior_plays(b, m, cfg)
            == self_atari_plays(b, m, cfg),
{
}

/// The prior plays and wins a move holds.
pub ghost struct PriorCounts {
    pub plays: nat,
    pub wins: nat,
}

impl View for Prior {
    type V = PriorCounts;

    closed spec fn view(&self) -> PriorCounts {
        PriorCounts { plays: self.plays as nat, wins: self.wins as nat }
    }
}

impl Prior {
    /// The priors of a pass or a play on the board: a negative prior for a
    /// self-atari and, where enabled, the empty-area prior.
    pub fn new(board: &Board, m: &Move, config: &UctPriorsConfig) -> (res: Prior)
        requires
            board.well_formed(),
            *m is Pass || board_play(board@, *m),
            config.self_atari + config.empty <= usize::MAX,
        ensures
            res@.plays == prior_plays(board@, *m, *config),
            res@.wins == prior_wins(board@, *m, *config),
    {
        let mut prior = Prior { plays: 0, wins: 0 };
        if !m.is_pass() {
            prior.calculate(board, m, config);
        }
        prior
    }

    pub fn plays(&self) -> (res: usize)
        ensures
            res == self@.plays,
    {
        self.plays
    }

    pub fn wins(&self) -> (res: usize)
        ensures
            res == self@.wins,
    {
        self.wins
    }

    fn calculate(&mut self, board: &Board, m: &Move, config: &UctPriorsConfig)
        requires
            board.well_formed(),
            board_play(board@, *m),
            old(self)@.plays == 0,
            old(self)@.wins == 0,
            config.self_atari + config.empty <= usize::MAX,
        ensures
            final(self)@.plays == prior_plays(board@, *m, *config),
            final(self)@.wins == prior_wins(board@, *m, *config),
    {
        if !board.is_not_self_atari(m) {
            self.record_negative_prior(config.self_atari);
        }
        if config.use_empty {
            let p = m.coord();
            let distance = p.distance_to_border(board.size());
            if distance <= 2 && self.in_empty_area(board, m) {
                if distance <= 1 {
                    self.record_negative_prior(config.empty);
                } else {
                    self.record_even_prior(config.empty);
                }
            }
        }
    }

    fn in_empty_area(&self, board: &Board, m: &Move) -> (res: bool)
        requires
            board.well_formed(),
            board_play(board@, *m),
        ensures
            res == in_empty_area(board@, move_coord(*m)),
    {
        vacant_around(board, m)
    }

    fn record_priors(&mut self, plays: usize, wins: usize)
        requires
            old(self)@.plays + plays <= usize::MAX,
            old(self)@.wins + wins <= usize::MAX,
        ensures
            final(self)@.plays == old(self)@.plays + plays,
            final(self)@.wins == old(self)@.wins + wins,
    {
        self.plays = self.plays + plays;
        self.wins = self.wins + wins;
    }

    fn record_even_prior(&mut self, prior: usize)
        requires
            old(self)@.plays + prior <= usize::MAX,
            old(self)@.wins + prior <= usize::MAX,
        ensures
            final(self)@.plays == old(self)@.plays + prior,
            final(self)@.wins == old(self)@.wins + prior,
    {
        self.record_priors(prior, prior);
    }

    fn record_negative_prior(&mut self, prior: usize)
        requires
            old(self)@.plays + prior <= usize::MAX,
        ensures
            final(self)@.plays == old(self)@.plays + prior,
            final(self)@.wins == old(self)@.wins,
    {
        self.record_priors(prior, 0);
    }
}

} // verus!
