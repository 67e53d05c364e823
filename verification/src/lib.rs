//! Resolution engine for ISO limits-and-fits designations.
//!
//! A fit designation such as `112B11` combines a nominal size, a tolerance
//! field code and an accuracy grade. This library parses such designations,
//! searches a set of reference tables for the matching deviation pair, and
//! computes the resulting average, maximum and minimum sizes with exact
//! decimal arithmetic.

pub mod calc;
pub mod decimal;
pub mod fields;
pub mod parser;
pub mod resolve;
pub mod resolver;
pub mod store;
