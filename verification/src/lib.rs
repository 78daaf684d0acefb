//! A verified FizzBuzz generator built around an in-place ASCII decimal
//! counter and a fixed-capacity output cursor that batches writes.
//!
//! The `model` module gives the mathematical description of the output:
//! `line_of(n)` is the newline-terminated token owed for the integer `n`,
//! and `output_upto(n)` is the whole text for `1..=n`. Every executable
//! function's contract is stated against these spec functions.

pub mod counter;
pub mod cursor;
pub mod engine;
pub mod model;
pub mod naive;
