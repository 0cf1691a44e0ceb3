//! An interpreter core for a small expression language whose literals carry
//! physical units: exact rational arithmetic, unit and dimension algebra,
//! scalar and vector values, and an evaluator over a variable store.
pub mod error;
pub mod number;
pub mod unit;
pub mod value;
pub mod quantity;
pub mod ast;
pub mod interpreter;
pub mod laws;
pub mod parser;
