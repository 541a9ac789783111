//! Core of a single-player grid battle: a square grid holding a registry of
//! fixed-length vessels, a randomized non-overlapping placement strategy, and
//! deterministic attack resolution.

pub mod builder;
pub mod cmd;
pub mod field;
pub mod game;
pub mod seed;
pub mod ship;

pub use builder::build_classic_field;
pub use cmd::Cmd;
pub use cmd::CmdError;
pub use field::Cell;
pub use field::Field;
pub use field::FieldError;
pub use field::SegmentState;
pub use game::Game;
pub use seed::brute_force::BruteForce;
pub use seed::Seed;
pub use ship::DamageResult;
pub use ship::Ship;
pub use ship::ShipError;
