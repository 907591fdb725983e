//! Messages from the search to its workers.
use vstd::prelude::*;

use crate::board::Move;

verus! {

/// Work for a worker: a playout from a node, or the priors of its children.
pub enum Message {
    RunPlayout { moves: Vec<Move>, nodes_added: usize, path: Vec<usize> },
    CalculatePriors { child_moves: Vec<Move>, moves: Vec<Move>, path: Vec<usize> },
}

} // verus!
