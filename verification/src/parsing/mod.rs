//! From text to expression trees.

pub mod cleaning;
pub mod parser;
pub mod splitting;
pub mod text;
