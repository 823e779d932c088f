//! Exact odds for contests between two groups of identical dice.
//!
//! `ways` states how many ordered rolls of a group reach a given total,
//! and `rolls` shows that this is the number of sequences of faces with
//! that total. `dice` holds the dice themselves and the counting table, and
//! `odds` combines the tables of two groups into the chance that one
//! out-rolls the other.

pub mod dice;
pub mod odds;
pub mod rolls;
pub mod ways;
