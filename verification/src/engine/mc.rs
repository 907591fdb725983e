//! The end of a Monte Carlo search: the move it settles on.
use vstd::prelude::*;

use super::move_stats::ratio_above;
use super::move_stats::zero_stat;
use super::MoveStats;
use crate::board::rules::winner_of;
use crate::board::Color;
use crate::board::Move;
use crate::game::Game;

verus! {

/// No simulation of any candidate was won.
pub open spec fn all_lost(stats: MoveStats) -> bool {
    forall|i: int| 0 <= i < stats.entries().len() ==> #[trigger] stats.entries()[i].1.wins == 0
}

/// `m` is a move of the best win ratio among the candidates, or a pass of
/// their player where none has a ratio above zero.
pub open spec fn best_candidate(stats: MoveStats, m: Move) -> bool {
    let e = stats.entries();
    if exists|i: int| 0 <= i < e.len() && ratio_above(#[trigger] e[i].1, zero_stat()) {
        exists|k: int|
            0 <= k < e.len() && #[trigger] e[k].0 == m && forall|i: int|
                0 <= i < e.len() ==> !ratio_above(#[trigger] e[i].1, e[k].1)
    } else {
        m == Move::Pass(stats.player())
    }
}

/// The move a search for `color` settles on: where every simulation was
/// lost, a pass if `color` wins the game as it stands and a resignation
/// otherwise; else a move of the best win ratio.
pub fn finish(color: Color, game: &Game, stats: &MoveStats) -> (res: Move)
    ensures
        all_lost(*stats) ==> res == (if winner_of(game@.board) == color {
            Move::Pass(color)
        } else {
            Move::Resign(color)
        }),
        !all_lost(*stats) ==> best_candidate(*stats, res),
{
    if stats.all_losses() {
        if game.winner() == color {
            Move::Pass(color)
        } else {
            Move::Resign(color)
        }
    } else {
        let (m, s) = stats.best();
        proof {
            let e = stats.entries();
            if exists|i: int| 0 <= i < e.len() && ratio_above(#[trigger] e[i].1, zero_stat()) {
                let k = choose|k: int| 0 <= k < e.len() && #[trigger] e[k] == (m, s);
                assert(e[k].0 == m);
                assert forall|i: int| 0 <= i < e.len() implies !ratio_above(#[trigger] e[i].1, e[k].1) by {}
            }
        }
        m
    }
}

} // verus!
