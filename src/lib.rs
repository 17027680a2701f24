//! Solver for a sliding-token puzzle on a fixed seven-location board: six
//! outer locations in a ring plus one hub joined to all of them.

pub mod board;
pub mod path;
pub mod search;
