//! Integer number theory over `i64`: divisibility, greatest common divisor,
//! least common multiple, the extended Euclidean algorithm and step-by-step
//! views of both Euclidean algorithms.
pub mod divisibility;
pub mod extended;
pub mod gcd;
pub mod steps;

pub use divisibility::{divides, is_common_divisor, is_common_multiple, is_divisible_by};
pub use extended::{gcd_extended, GcdExtendedResult};
pub use gcd::{gcd, lcm};
pub use steps::{EuclidStep, ExtendedEuclidStep, GcdExtendedIterator, GcdIterator};
