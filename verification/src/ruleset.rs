//! The rule variants the engine can play under.
use vstd::prelude::*;

verus! {

/// A set of rules: which moves are allowed and when the game ends.
#[derive(Clone, Copy, Debug, PartialEq, Eq, Hash, Structural)]
pub enum Ruleset {
    /// Tromp-Taylor rules on any board size: suicide is allowed.
    AnySizeTrompTaylor,
    /// The rules of the Computer Go Server.
    CGOS,
    /// The Chinese rules as played on KGS: suicide is not allowed.
    KgsChinese,
    /// Only the placement rules: anybody may play, also after the game ended.
    Minimal,
}

/// Whether moves may still be played once the game is over.
pub open spec fn allows_game_over_play(r: Ruleset) -> bool {
    r == Ruleset::Minimal
}

/// Whether a player may move twice in a row.
pub open spec fn allows_same_player(r: Ruleset) -> bool {
    r == Ruleset::Minimal
}

/// Whether a move may leave its own chain without liberties.
pub open spec fn allows_suicide(r: Ruleset) -> bool {
    r == Ruleset::AnySizeTrompTaylor || r == Ruleset::Minimal
}

impl Ruleset {
    pub fn game_over_play(&self) -> (res: bool)
        ensures
            res == allows_game_over_play(*self),
    {
        match self {
            Ruleset::Minimal => true,
            _ => false,
        }
    }

    pub fn same_player(&self) -> (res: bool)
        ensures
            res == allows_same_player(*self),
    {
        match self {
            Ruleset::Minimal => true,
            _ => false,
        }
    }

    pub fn suicide_allowed(&self) -> (res: bool)
        ensures
            res == allows_suicide(*self),
    {
        match self {
            Ruleset::AnySizeTrompTaylor => true,
            Ruleset::Minimal => true,
            _ => false,
        }
    }
}

} // verus!
