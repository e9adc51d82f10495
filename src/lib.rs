//! Greedy construction of fixed-width decimal codes in which any two chosen
//! numbers differ in at least two digit positions.
//!
//! The numbers `0 .. BASE^n` are scanned in increasing order; each number that
//! is not yet excluded is chosen, and every number that differs from it in at
//! most one digit position is excluded from then on.

pub mod digits;
pub mod sieve;
pub mod select;
pub mod laws;
pub mod render;

pub use digits::BASE;
pub use sieve::Sieve;
pub use select::{Selector, digit_weights, domain_size, mark_variations_as_similar};
pub use render::{
    WriteNum, WriteNumEasy, WriteNumReverse, generate_number_string, numbers_as_string,
    write_numbers,
};
