//! Exact rational numbers extended with signed infinities and NaN, with
//! arithmetic, ordering, text forms and best rational approximation.
pub mod approx;
pub mod arith;
pub mod float;
pub mod fraction;
pub mod laws;
pub mod text;
pub mod value;

pub use fraction::ExtFraction;
pub use value::ExtValue;
