//! An arithmetic expression calculator: a character-level parser that builds
//! an expression tree, an exact fraction evaluator and a canonical printer.

pub mod calculation;
pub mod discrete;
pub mod parsing;
pub mod symbols;
