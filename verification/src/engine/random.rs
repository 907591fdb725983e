//! An engine that plays a uniformly random move among those allowed.
use vstd::prelude::*;

use crate::board::rules::legal_plays_without_eyes;
use crate::board::Color;
use crate::board::Move;
use crate::game::playable_moves;
use crate::game::Game;
use crate::random::random_u64;

verus! {

/// Plays at random.
pub struct RandomEngine;

/// The move a random number picks: the candidate at the number modulo the
/// number of candidates, or a pass of `color` when there is none.
pub open spec fn picked(moves: Seq<Move>, r: u64, color: Color) -> Move {
    if moves.len() == 0 {
        Move::Pass(color)
    } else {
        moves[(r as int) % (moves.len() as int)]
    }
}

/// The candidate that `r` picks, or a pass of `color` when there is none.
pub fn pick_move(moves: &Vec<Move>, r: u64, color: Color) -> (res: Move)
    ensures
        res == picked(moves@, r, color),
{
    if moves.len() == 0 {
        Move::Pass(color)
    } else {
        let n = moves.len() as u64;
        let i = (r % n) as usize;
        moves[i]
    }
}

impl RandomEngine {
    pub fn new() -> (res: RandomEngine) {
        RandomEngine
    }

    /// A random move among those the game allows that fill no own eye; a
    /// pass of `color` when there is none.
    pub fn gen_move(&self, color: Color, game: &Game) -> (res: Move)
        ensures
            ({
                let moves = playable_moves(game@, legal_plays_without_eyes(game@.board));
                &&& moves.len() == 0 ==> res == Move::Pass(color)
                &&& moves.len() > 0 ==> moves.contains(res)
            }),
    {
        let moves = game.legal_moves_without_eyes();
        let r = random_u64();
        let m = pick_move(&moves, r, color);
        proof {
            if moves.len() > 0 {
                let i = (r as int) % (moves@.len() as int);
                assert(moves@[i] == m);
            }
        }
        m
    }
}

} // verus!
