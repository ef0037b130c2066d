//! The authoritative core of a multiplayer grid-snake game: per-tick snake
//! movement and growth, collision detection with a post-spawn grace period,
//! collision-aware food spawning, a session registry with idempotent
//! teardown, and a persisted dense-ranked high-score table.

pub mod protocol;
pub mod rng;
pub mod grid;
pub mod highscore;
pub mod sim;
pub mod movement;
pub mod spawner;
pub mod collision;
pub mod tick;
