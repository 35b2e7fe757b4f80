//! A fixed-width (32-bit) signed integer value type.
//!
//! The type stores a two's-complement bit pattern, is built from a decimal
//! string by a hand-rolled parsing state machine, renders back to a decimal
//! string, and offers wrapping arithmetic operators.

pub mod decimal;
pub mod r_int;

pub use r_int::{ParseError, RInt};
