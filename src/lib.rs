//! Directory reorganisation: placement strategies, name-conflict resolution,
//! a bounded history of moves, and the reversal of the latest operation.
//!
//! The library plans; a caller performs the moves on disk in the order given.

pub mod text;
pub mod paths;
pub mod error;
pub mod conflict;
pub mod ranges;
pub mod moves;
pub mod categories;
pub mod sizes;
pub mod dates;
pub mod actions;
pub mod strategies;
pub mod flatten;
pub mod undo;
pub mod dedup;
pub mod tree;
