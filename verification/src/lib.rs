//! Identity-scoped score tracking with a shared ranked leaderboard.
//!
//! The crate models the persistent state of a small score-keeping service:
//! per-player records created once per identity, score submissions guarded by
//! an authorization gate, and a bounded, descending-sorted leaderboard that
//! players are merged into on demand.

pub mod addressing;
pub mod codec;
pub mod leaderboard;
pub mod state;
pub mod types;
