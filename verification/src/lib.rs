//! Fixed-point decimal numbers.
//!
//! A `FixedPoint<T, D>` holds an integer of type `T` that stands for the
//! decimal number `stored / 10^D`, where the precision `D` is fixed per type
//! instantiation.  The crate provides construction from integers, string
//! parsing, canonical string formatting, division by a scalar, and a
//! construction facility for decimal literal tokens such as `-1.1i16`.

pub mod arith;
pub mod digits;
pub mod display;
pub mod fixed;
pub mod laws;
pub mod literal;
pub mod number;
pub mod parse;

pub use arith::pow10;
pub use fixed::FixedPoint;
pub use number::Number;
pub use parse::ParseError;
