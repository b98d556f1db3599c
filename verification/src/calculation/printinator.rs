//! The printer: an expression tree written with no more parentheses than
//! the reader needs.

use vstd::prelude::*;
use crate::parsing::text::from_chars;
use crate::symbols::constants::{constant_name, push_constant};
use crate::symbols::exp::Exp;
use crate::symbols::fpnum::decimal_text;

verus! {

/// `s`, in parentheses if `parenthesize` is set.
pub open spec fn wrapped(s: Seq<char>, parenthesize: bool) -> Seq<char> {
    if parenthesize {
        seq!['('] + s + seq![')']
    } else {
        s
    }
}

/// `b` is a sum that starts with a negation, and so is written with its
/// own sign in front.
pub open spec fn starts_negative(b: Exp) -> bool {
    b matches Exp::Term(first, _) && *first is Negative
}

/// The text of an expression without parentheses around the whole.
///
/// A sum is `a+b`, `a-c` where `b` is the negation of `c`, and `a`
/// followed by `b` where `b` brings its own sign. A product is `a*b`, and
/// `a/c` where `b` is the inverse of `c`. An inverse alone is `1/a`. The
/// operands of sums are written bare but for what is subtracted; all
/// other operands are written in parentheses.
pub open spec fn unwrapped(expression: Exp) -> Seq<char>
    decreases expression, 0nat,
{
    match expression {
        Exp::Term(a, b) => match *b {
            Exp::Negative(c) => printed(*a, false) + seq!['-'] + printed(*c, true),
            _ => if starts_negative(*b) {
                printed(*a, false) + printed(*b, false)
            } else {
                printed(*a, false) + seq!['+'] + printed(*b, false)
            },
        },
        Exp::Factor(a, b) => match *b {
            Exp::Inverse(c) => printed(*a, true) + seq!['/'] + printed(*c, true),
            _ => printed(*a, true) + seq!['*'] + printed(*b, true),
        },
        Exp::Pow(a, b) => printed(*a, true) + seq!['^'] + printed(*b, true),
        Exp::Negative(a) => seq!['-'] + printed(*a, true),
        Exp::Inverse(a) => seq!['1', '/'] + printed(*a, true),
        Exp::Number(value) => decimal_text(value.digits as nat, value.decimals as nat),
        Exp::Constant(constant) => constant_name(constant),
    }
}

/// The text of an expression. With `parenthesize` set, whatever is made
/// of an operator and its operands stands in parentheses; a number or a
/// constant never does.
pub open spec fn printed(expression: Exp, parenthesize: bool) -> Seq<char>
    decreases expression, 1nat,
{
    if expression is Number || expression is Constant {
        unwrapped(expression)
    } else {
        wrapped(unwrapped(expression), parenthesize)
    }
}

/// Whether `b` is a sum that starts with a negation.
fn brings_sign(b: &Exp) -> (r: bool)
    ensures
        r == starts_negative(*b),
{
    match b {
        Exp::Term(first, _) => match &**first {
            Exp::Negative(_) => true,
            _ => false,
        },
        _ => false,
    }
}

/// Appends the text of a sum to `out`.
fn print_term(out: &mut Vec<char>, expression: &Exp)
    requires
        *expression is Term,
    ensures
        final(out)@ == old(out)@ + unwrapped(*expression),
    decreases *expression, 0nat,
{
    if let Exp::Term(a, b) = expression {
        print_into(out, a, false);
        match &**b {
            Exp::Negative(c) => {
                out.push('-');
                print_into(out, c, true);
                assert(out@ == old(out)@ + (printed(**a, false) + seq!['-'] + printed(
                    **c,
                    true,
                )));
            },
            _ => {
                if !brings_sign(b) {
                    out.push('+');
                }
                print_into(out, b, false);
                assert(out@ == old(out)@ + if starts_negative(**b) {
                    printed(**a, false) + printed(**b, false)
                } else {
                    printed(**a, false) + seq!['+'] + printed(**b, false)
                });
            },
        }
    }
}

/// Appends the text of a product to `out`.
fn print_factor(out: &mut Vec<char>, expression: &Exp)
    requires
        *expression is Factor,
    ensures
        final(out)@ == old(out)@ + unwrapped(*expression),
    decreases *expression, 0nat,
{
    if let Exp::Factor(a, b) = expression {
        print_into(out, a, true);
        match &**b {
            Exp::Inverse(c) => {
                out.push('/');
                print_into(out, c, true);
                assert(out@ == old(out)@ + (printed(**a, true) + seq!['/'] + printed(
                    **c,
                    true,
                )));
            },
            _ => {
                out.push('*');
                print_into(out, b, true);
                assert(out@ == old(out)@ + (printed(**a, true) + seq!['*'] + printed(
                    **b,
                    true,
                )));
            },
        }
    }
}

/// Appends the text of a power, a negation or an inverse to `out`.
fn print_other(out: &mut Vec<char>, expression: &Exp)
    requires
        *expression is Pow || *expression is Negative || *expression is Inverse,
    ensures
        final(out)@ == old(out)@ + unwrapped(*expression),
    decreases *expression, 0nat,
{
    match expression {
        Exp::Pow(a, b) => {
            print_into(out, a, true);
            out.push('^');
            print_into(out, b, true);
            assert(out@ == old(out)@ + (printed(**a, true) + seq!['^'] + printed(**b, true)));
        },
        Exp::Negative(a) => {
            out.push('-');
            print_into(out, a, true);
            assert(out@ == old(out)@ + (seq!['-'] + printed(**a, true)));
        },
        Exp::Inverse(a) => {
            out.push('1');
            out.push('/');
            print_into(out, a, true);
            assert(out@ == old(out)@ + (seq!['1', '/'] + printed(**a, true)));
        },
        _ => {},
    }
}

/// Appends the text of `expression` to `out`.
pub fn print_into(out: &mut Vec<char>, expression: &Exp, parenthesize: bool)
    ensures
        final(out)@ == old(out)@ + printed(*expression, parenthesize),
    decreases *expression, 1nat,
{
    match expression {
        Exp::Number(value) => {
            value.push_to(out);
        },
        Exp::Constant(constant) => {
            push_constant(out, *constant);
        },
        _ => {
            if parenthesize {
                out.push('(');
            }
            match expression {
                Exp::Term(_, _) => print_term(out, expression),
                Exp::Factor(_, _) => print_factor(out, expression),
                _ => print_other(out, expression),
            }
            if parenthesize {
                out.push(')');
                assert(out@ == old(out)@ + (seq!['('] + unwrapped(*expression) + seq![')']));
            }
        },
    }
}

/// The text of `expression`, in parentheses if `parenthesize` is set and
/// the expression is more than a number or a constant.
pub fn printinate(expression: &Exp, parenthesize: bool) -> (text: String)
    ensures
        text@ == printed(*expression, parenthesize),
{
    let mut out: Vec<char> = Vec::new();
    print_into(&mut out, expression, parenthesize);
    from_chars(out.as_slice())
}

} // verus!
