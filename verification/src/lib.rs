//! Division of multi-limb unsigned integers by one- and two-limb divisors,
//! using the reciprocal-based algorithms of Möller and Granlund.

pub mod double_word;
pub mod reciprocal;
pub mod small;
pub mod limbs;
pub mod laws;
pub mod problems;
