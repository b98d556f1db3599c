//! Number-theoretic helpers.

pub mod monomial;
