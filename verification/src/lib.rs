//! A small two-dimensional physics test-bed: circular bodies move inside a
//! rectangular arena, bounce off its walls, and exchange momentum on pairwise
//! contact through elastic-collision physics.
//!
//! Scalars are exact rationals held as `i64` numerator/denominator pairs, so
//! every contract speaks of true rational arithmetic; an operation whose
//! reduced result does not fit the machine word reports that instead of
//! returning a rounded value.

pub mod conservation;
pub mod errors;
pub mod particles;
pub mod rat;
pub mod sim;
pub mod vecn;
