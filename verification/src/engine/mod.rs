//! Move generation: statistics of candidate moves and the engines built on them.
pub mod amaf;
pub mod mc;
pub mod move_stats;
pub mod prior;
pub mod random;
pub mod uct;
pub mod worker;

pub use self::amaf::AmafEngine;
pub use self::move_stats::MoveStat;
pub use self::move_stats::MoveStats;
pub use self::random::RandomEngine;
