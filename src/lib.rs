//! Kernel density estimation with automatic bandwidth selection.
//!
//! Sample values are integers in a unit chosen by the caller (for example
//! thousandths), and every statistic is computed exactly as a rational
//! number. Quantities that are irrational in general (a square root, a fifth
//! root) are carried exactly by their squares.
pub mod ratio;
pub mod order;
pub mod stats;
pub mod bandwidth;
pub mod kde;
pub mod strain;
