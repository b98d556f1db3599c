//! The expression tree.

use vstd::prelude::*;
use crate::symbols::constants::Constant;
use crate::symbols::fpnum::FPNum;

verus! {

/// An arithmetic expression. Every node owns its operands.
#[derive(Debug, Hash, PartialEq, Eq)]
pub enum Exp {
    /// a + b
    Term(Box<Exp>, Box<Exp>),
    /// a * b
    Factor(Box<Exp>, Box<Exp>),
    /// a^b
    Pow(Box<Exp>, Box<Exp>),
    /// -a
    Negative(Box<Exp>),
    /// 1/a
    Inverse(Box<Exp>),
    /// A literal.
    Number(FPNum),
    /// A named constant.
    Constant(Constant),
}

impl Clone for Exp {
    fn clone(&self) -> (copy: Exp)
        ensures
            copy == *self,
        decreases *self,
    {
        match self {
            Exp::Term(a, b) => Exp::Term(Box::new((**a).clone()), Box::new((**b).clone())),
            Exp::Factor(a, b) => Exp::Factor(Box::new((**a).clone()), Box::new((**b).clone())),
            Exp::Pow(a, b) => Exp::Pow(Box::new((**a).clone()), Box::new((**b).clone())),
            Exp::Negative(a) => Exp::Negative(Box::new((**a).clone())),
            Exp::Inverse(a) => Exp::Inverse(Box::new((**a).clone())),
            Exp::Number(value) => Exp::Number(*value),
            Exp::Constant(constant) => Exp::Constant(*constant),
        }
    }
}

} // verus!
