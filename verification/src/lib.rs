//! Fractions in lowest terms.
//!
//! A fraction is reduced by listing the divisors of its numerator and of its
//! denominator in ascending order, intersecting the two lists, and dividing
//! both parts by the greatest value the lists share.

pub mod arith;
pub mod ascending;
pub mod divisors;
pub mod fraction;
pub mod lines;
pub mod text;
