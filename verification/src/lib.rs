//! Fair seating computation for multi-round tournaments.
//!
//! Players sit at tables of 4 or 5 seats; seat order encodes positional
//! relationships (predator, prey, grand-predator, grand-prey, cross-table).
//! The library partitions a player list into valid tables, measures the
//! fairness-relevant statistics of one or more rounds, reduces a measure to a
//! totally ordered score under nine weighted rules, and searches seatings by
//! local moves with incremental re-measurement.

pub mod measure;
pub mod optimizer;
pub mod player_index;
pub mod relationship;
pub mod round;
pub mod score;
