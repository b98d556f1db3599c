//! The data that expressions are made of.

pub mod constants;
pub mod exp;
pub mod fpnum;
pub mod reading;
