//! What an expression tree is worth, and how it is written.

pub mod answer;
pub mod exact;
pub mod exponents;
pub mod fractinator;
pub mod printinator;
