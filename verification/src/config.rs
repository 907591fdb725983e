//! Settings of the search.
use vstd::prelude::*;

verus! {

/// The prior plays and wins given to candidate moves of the search tree.
#[derive(Debug, Copy, Clone, PartialEq, Eq, Structural)]
pub struct UctPriorsConfig {
    /// Even prior for a move that captures several stones.
    pub capture_many: usize,
    /// Even prior for a move that captures a single stone.
    pub capture_one: usize,
    /// Prior for a move near the edge in an empty area: negative on the
    /// first two lines, even on the third.
    pub empty: usize,
    /// Prior plays every move starts with.
    pub neutral_plays: usize,
    /// Prior wins every move starts with.
    pub neutral_wins: usize,
    /// Negative prior for a move that puts its own chain in atari.
    pub self_atari: usize,
    /// Whether the empty-area prior is used.
    pub use_empty: bool,
}

impl Default for UctPriorsConfig {
    /// The priors the search starts with.
    fn default() -> (res: UctPriorsConfig)
        ensures
            res == (UctPriorsConfig {
                capture_many: 30,
                capture_one: 15,
                empty: 10,
                neutral_plays: 10,
                neutral_wins: 5,
                self_atari: 10,
                use_empty: false,
            }),
    {
        UctPriorsConfig {
            capture_many: 30,
            capture_one: 15,
            empty: 10,
            neutral_plays: 10,
            neutral_wins: 5,
            self_atari: 10,
            use_empty: false,
        }
    }
}

/// What the nodes of the search tree read of the settings: the plays a
/// leaf needs before it grows children, and the priors of new moves.
#[derive(Debug, Copy, Clone, PartialEq, Eq, Structural)]
pub struct TreeConfig {
    pub expand_after: usize,
    pub priors: UctPriorsConfig,
}

impl Default for TreeConfig {
    /// A leaf grows children after one play, with the default priors.
    fn default() -> (res: TreeConfig)
        ensures
            res.expand_after == 1,
            res.priors == (UctPriorsConfig {
                capture_many: 30,
                capture_one: 15,
                empty: 10,
                neutral_plays: 10,
                neutral_wins: 5,
                self_atari: 10,
                use_empty: false,
            }),
    {
        TreeConfig { expand_after: 1, priors: UctPriorsConfig::default() }
    }
}

} // verus!
