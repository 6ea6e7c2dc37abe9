//! A calculator core that converts quantities between user-defined units.
//!
//! Units form an undirected graph whose edges carry conversion factors.
//! Requests are parsed into lists of numerator and denominator units, each
//! starting unit is matched with an ending unit through a shortest path, and
//! the conversion is reported as an ordered list of steps. The numeric type of
//! the factors is a parameter: the library only moves factors around, while
//! the arithmetic on them is left to the caller.
pub mod idgen;
pub mod algorithm;
pub mod text;
pub mod aliases;
pub mod error;
pub mod registry;
pub mod parse;
pub mod driver;
pub mod elements;
