//! Magnitude-unbounded decimal numbers with a short textual label, and the
//! small utilities that surround them in a graphing front end.

pub mod algebra_parser;
pub mod big_number;
pub mod compact;
pub mod cooldown;
pub mod decimal;
pub mod derivative_solver;
pub mod digits;
pub mod error;
pub mod exponential;
pub mod float;
pub mod format;
pub mod laws;
pub mod power;
pub mod quantity;
pub mod ratio;
pub mod text;
