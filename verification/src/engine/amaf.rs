//! The all-moves-as-first engine.
use vstd::prelude::*;

verus! {

/// An engine that credits every move of a playout as if played first.
pub struct AmafEngine;

impl AmafEngine {
    pub fn new() -> (res: AmafEngine) {
        AmafEngine
    }
}

} // verus!
