//! Local search for a car-sharing fleet: vehicles are stationed in zones and
//! time-windowed reservations are handed to vehicles so that the summed
//! penalty is small.
//!
//! Every function carries a contract over the mathematical model in
//! [`model`]; the contracts are proved by Verus.
//!
//! - [`data_structs`], [`model`]: the problem and an assignment as values.
//! - [`moves`], [`construct`], [`search`]: the moves, the first assignment
//!   and one iteration of the search as functions on those values.
//! - [`invariants`], [`counting`], [`cost`], [`validity`], [`laws`]: what
//!   the moves keep, what an assignment costs, and what holds of every
//!   assignment that the search reaches.
//! - [`ls`], [`operators`], [`driver`]: the search that runs.
//! - [`parser`], [`input`], [`output`]: the input text, the check on what
//!   it describes, and the report.

pub mod data_structs;
pub mod model;
pub mod moves;
pub mod invariants;
pub mod counting;
pub mod cost;
pub mod validity;
pub mod ls;
pub mod operators;
pub mod construct;
pub mod search;
pub mod driver;
pub mod input;
pub mod laws;
pub mod output;
pub mod parser;
