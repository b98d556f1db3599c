//! The parser: from a text to its expression tree, one level of operator
//! precedence after the other.

use vstd::prelude::*;
use crate::parsing::cleaning::{strip_whitespace, without_whitespace};
use crate::parsing::splitting::{lemma_split_text_len, split_chars, split_text, Split};
use crate::parsing::text::to_chars;
use crate::symbols::constants::{constant_prefix, match_constant};
use crate::symbols::exp::Exp;
use crate::symbols::fpnum::{char_is_digit, is_digit, literal, FPNum, ParseFPNumError};

verus! {

/// Why a text is no expression.
#[derive(Debug, PartialEq, Eq, Copy, Clone, Structural)]
pub enum ParseError {
    /// A run of digits and decimal separators is no literal.
    MalformedLiteral(ParseFPNumError),
    /// An operand starts with a character that begins neither a constant
    /// nor a number.
    UnknownSymbol,
    /// An operand is missing.
    EmptyExpression,
}

/// `c` separates the whole part of a literal from its decimals.
pub open spec fn is_separator(c: char) -> bool {
    c == '.' || c == ','
}

/// The number of digits and decimal separators that `s` starts with.
pub open spec fn literal_run(s: Seq<char>) -> nat
    decreases s.len(),
{
    if s.len() > 0 && (is_digit(s.first()) || is_separator(s.first())) {
        1 + literal_run(s.drop_first())
    } else {
        0
    }
}

/// `e`, negated if `negate` is set.
pub open spec fn negated(e: Exp, negate: bool) -> Exp {
    if negate {
        Exp::Negative(Box::new(e))
    } else {
        e
    }
}

/// `s` starts with `(` and ends with `)`.
pub open spec fn is_parenthesized(s: Seq<char>) -> bool {
    s.len() >= 2 && s.first() == '(' && s.last() == ')'
}

/// An operand without sign and parentheses: a constant or a number, and
/// whatever follows it as a further factor.
pub open spec fn atom_of(s: Seq<char>) -> Result<Exp, ParseError>
    decreases s.len(),
{
    if s.len() == 0 {
        Err(ParseError::EmptyExpression)
    } else {
        match constant_prefix(s) {
            Some((constant, n)) => {
                if n >= s.len() {
                    Ok(Exp::Constant(constant))
                } else {
                    match atom_of(s.subrange(n as int, s.len() as int)) {
                        Ok(rest) => Ok(
                            Exp::Factor(Box::new(Exp::Constant(constant)), Box::new(rest)),
                        ),
                        Err(e) => Err(e),
                    }
                }
            },
            None => {
                if !is_digit(s.first()) {
                    Err(ParseError::UnknownSymbol)
                } else {
                    let n = literal_run(s);
                    match literal(s.subrange(0, n as int)) {
                        Err(e) => Err(ParseError::MalformedLiteral(e)),
                        Ok(number) => {
                            if n >= s.len() {
                                Ok(Exp::Number(number))
                            } else {
                                match atom_of(s.subrange(n as int, s.len() as int)) {
                                    Ok(rest) => Ok(
                                        Exp::Factor(
                                            Box::new(Exp::Number(number)),
                                            Box::new(rest),
                                        ),
                                    ),
                                    Err(e) => Err(e),
                                }
                            }
                        },
                    }
                }
            },
        }
    }
}

/// A sum: the text is split at its first top-level `+` or `-`. What
/// follows a `-` is a sum whose first addend is negated.
pub open spec fn term_of(s: Seq<char>, negate: bool) -> Result<Exp, ParseError>
    decreases s.len(), 3nat,
{
    match split_text(s, '+', '-') {
        Split::Normal((a, b)) => {
            proof {
                lemma_split_text_len(s, '+', '-');
            }
            match factor_of(a) {
                Err(e) => Err(e),
                Ok(left) => match term_of(b, false) {
                    Err(e) => Err(e),
                    Ok(right) => Ok(Exp::Term(Box::new(negated(left, negate)), Box::new(right))),
                },
            }
        },
        Split::Opposite((a, b)) => {
            proof {
                lemma_split_text_len(s, '+', '-');
            }
            match factor_of(a) {
                Err(e) => Err(e),
                Ok(left) => match term_of(b, true) {
                    Err(e) => Err(e),
                    Ok(right) => Ok(Exp::Term(Box::new(negated(left, negate)), Box::new(right))),
                },
            }
        },
        Split::Single(a) => {
            proof {
                lemma_split_text_len(s, '+', '-');
            }
            match factor_of(a) {
                Err(e) => Err(e),
                Ok(only) => Ok(negated(only, negate)),
            }
        },
    }
}

/// A product: the text is split at its first top-level `*` or `/`. What
/// follows a `/` is inverted as a whole.
pub open spec fn factor_of(s: Seq<char>) -> Result<Exp, ParseError>
    decreases s.len(), 2nat,
{
    match split_text(s, '*', '/') {
        Split::Normal((a, b)) => {
            proof {
                lemma_split_text_len(s, '*', '/');
            }
            match power_of(a) {
                Err(e) => Err(e),
                Ok(left) => match factor_of(b) {
                    Err(e) => Err(e),
                    Ok(right) => Ok(Exp::Factor(Box::new(left), Box::new(right))),
                },
            }
        },
        Split::Opposite((a, b)) => {
            proof {
                lemma_split_text_len(s, '*', '/');
            }
            match power_of(a) {
                Err(e) => Err(e),
                Ok(left) => match factor_of(b) {
                    Err(e) => Err(e),
                    Ok(right) => Ok(
                        Exp::Factor(Box::new(left), Box::new(Exp::Inverse(Box::new(right)))),
                    ),
                },
            }
        },
        Split::Single(a) => {
            proof {
                lemma_split_text_len(s, '*', '/');
            }
            power_of(a)
        },
    }
}

/// A power: the text is split at its first top-level `^` or `√`. In
/// `a√b` the index of the root comes first: it is `b^(1/a)`.
pub open spec fn power_of(s: Seq<char>) -> Result<Exp, ParseError>
    decreases s.len(), 1nat,
{
    match split_text(s, '^', '√') {
        Split::Normal((a, b)) => {
            proof {
                lemma_split_text_len(s, '^', '√');
            }
            match nested_of(a) {
                Err(e) => Err(e),
                Ok(base) => match power_of(b) {
                    Err(e) => Err(e),
                    Ok(exponent) => Ok(Exp::Pow(Box::new(base), Box::new(exponent))),
                },
            }
        },
        Split::Opposite((a, b)) => {
            proof {
                lemma_split_text_len(s, '^', '√');
            }
            match nested_of(b) {
                Err(e) => Err(e),
                Ok(radicand) => match power_of(a) {
                    Err(e) => Err(e),
                    Ok(index) => Ok(
                        Exp::Pow(Box::new(radicand), Box::new(Exp::Inverse(Box::new(index)))),
                    ),
                },
            }
        },
        Split::Single(a) => {
            proof {
                lemma_split_text_len(s, '^', '√');
            }
            nested_of(a)
        },
    }
}

/// An operand: an optional `-`, then either a sum in parentheses or an
/// atom.
pub open spec fn nested_of(s: Seq<char>) -> Result<Exp, ParseError>
    decreases s.len(), 0nat,
{
    if s.len() == 0 {
        Err(ParseError::EmptyExpression)
    } else {
        let negate = s.first() == '-';
        let rest = if negate {
            s.drop_first()
        } else {
            s
        };
        let inner = if is_parenthesized(rest) {
            term_of(rest.subrange(1, rest.len() - 1), false)
        } else {
            atom_of(rest)
        };
        match inner {
            Err(e) => Err(e),
            Ok(e) => Ok(negated(e, negate)),
        }
    }
}

/// The expression that `s` writes, white space set aside.
pub open spec fn expression_of(s: Seq<char>) -> Result<Exp, ParseError> {
    term_of(without_whitespace(s), false)
}

/// Wraps `e` in a negation if `negate` is set.
fn negate_if(e: Exp, negate: bool) -> (r: Exp)
    ensures
        r == negated(e, negate),
{
    if negate {
        Exp::Negative(Box::new(e))
    } else {
        e
    }
}

/// The number of digits and decimal separators that `text` starts with.
fn literal_len(text: &[char]) -> (n: usize)
    ensures
        n == literal_run(text@),
        n <= text.len(),
{
    let mut i: usize = 0;
    assert(text@.subrange(0, text.len() as int) == text@);
    while i < text.len() && (char_is_digit(text[i]) || text[i] == '.' || text[i] == ',')
        invariant
            i <= text.len(),
            literal_run(text@) == i + literal_run(text@.subrange(i as int, text.len() as int)),
        decreases text.len() - i,
    {
        assert(text@.subrange(i as int, text.len() as int).drop_first() == text@.subrange(
            i + 1,
            text.len() as int,
        ));
        i += 1;
    }
    i
}

/// Reads an operand without sign and parentheses: a constant or a
/// number. Whatever follows it is read in the same way and multiplied to
/// it.
pub fn parse_constants(equation: &[char]) -> (parsed: Result<Exp, ParseError>)
    ensures
        parsed == atom_of(equation@),
    decreases equation.len(),
{
    if equation.len() == 0 {
        return Err(ParseError::EmptyExpression);
    }
    match match_constant(equation) {
        Some((constant, n)) => {
            if n >= equation.len() {
                Ok(Exp::Constant(constant))
            } else {
                match parse_constants(vstd::slice::slice_subrange(equation, n, equation.len())) {
                    Ok(rest) => Ok(
                        Exp::Factor(Box::new(Exp::Constant(constant)), Box::new(rest)),
                    ),
                    Err(e) => Err(e),
                }
            }
        },
        None => {
            if !char_is_digit(equation[0]) {
                return Err(ParseError::UnknownSymbol);
            }
            let n = literal_len(equation);
            match parse_number(vstd::slice::slice_subrange(equation, 0, n)) {
                Err(e) => Err(e),
                Ok(number) => {
                    if n >= equation.len() {
                        Ok(number)
                    } else {
                        match parse_constants(
                            vstd::slice::slice_subrange(equation, n, equation.len()),
                        ) {
                            Ok(rest) => Ok(Exp::Factor(Box::new(number), Box::new(rest))),
                            Err(e) => Err(e),
                        }
                    }
                },
            }
        },
    }
}

/// Reads a literal.
pub fn parse_number(equation: &[char]) -> (parsed: Result<Exp, ParseError>)
    ensures
        parsed == match literal(equation@) {
            Ok(number) => Ok::<Exp, ParseError>(Exp::Number(number)),
            Err(e) => Err(ParseError::MalformedLiteral(e)),
        },
{
    match FPNum::from_chars(equation) {
        Ok(number) => Ok(Exp::Number(number)),
        Err(e) => Err(ParseError::MalformedLiteral(e)),
    }
}

/// Reads an operand: an optional `-`, then a sum in parentheses or an
/// atom.
pub fn parse_nested(equation: &[char]) -> (parsed: Result<Exp, ParseError>)
    ensures
        parsed == nested_of(equation@),
    decreases equation.len(), 0nat,
{
    if equation.len() == 0 {
        return Err(ParseError::EmptyExpression);
    }
    let negate = equation[0] == '-';
    let rest = if negate {
        vstd::slice::slice_subrange(equation, 1, equation.len())
    } else {
        equation
    };
    assert(rest@ == if negate {
        equation@.drop_first()
    } else {
        equation@
    });
    let inner = if rest.len() >= 2 && rest[0] == '(' && rest[rest.len() - 1] == ')' {
        parse_term(vstd::slice::slice_subrange(rest, 1, rest.len() - 1), false)
    } else {
        parse_constants(rest)
    };
    match inner {
        Err(e) => Err(e),
        Ok(e) => Ok(negate_if(e, negate)),
    }
}

/// Reads a power or a root.
pub fn parse_power(equation: &[char]) -> (parsed: Result<Exp, ParseError>)
    ensures
        parsed == power_of(equation@),
    decreases equation.len(), 1nat,
{
    proof {
        lemma_split_text_len(equation@, '^', '√');
    }
    match split_chars(equation, '^', '√') {
        Split::Normal((a, b)) => {
            match parse_nested(a) {
                Err(e) => Err(e),
                Ok(base) => match parse_power(b) {
                    Err(e) => Err(e),
                    Ok(exponent) => Ok(Exp::Pow(Box::new(base), Box::new(exponent))),
                },
            }
        },
        Split::Opposite((a, b)) => {
            match parse_nested(b) {
                Err(e) => Err(e),
                Ok(radicand) => match parse_power(a) {
                    Err(e) => Err(e),
                    Ok(index) => Ok(
                        Exp::Pow(Box::new(radicand), Box::new(Exp::Inverse(Box::new(index)))),
                    ),
                },
            }
        },
        Split::Single(a) => parse_nested(a),
    }
}

/// Reads a product or a quotient.
pub fn parse_factor(equation: &[char]) -> (parsed: Result<Exp, ParseError>)
    ensures
        parsed == factor_of(equation@),
    decreases equation.len(), 2nat,
{
    proof {
        lemma_split_text_len(equation@, '*', '/');
    }
    match split_chars(equation, '*', '/') {
        Split::Normal((a, b)) => {
            match parse_power(a) {
                Err(e) => Err(e),
                Ok(left) => match parse_factor(b) {
                    Err(e) => Err(e),
                    Ok(right) => Ok(Exp::Factor(Box::new(left), Box::new(right))),
                },
            }
        },
        Split::Opposite((a, b)) => {
            match parse_power(a) {
                Err(e) => Err(e),
                Ok(left) => match parse_factor(b) {
                    Err(e) => Err(e),
                    Ok(right) => Ok(
                        Exp::Factor(Box::new(left), Box::new(Exp::Inverse(Box::new(right)))),
                    ),
                },
            }
        },
        Split::Single(a) => parse_power(a),
    }
}

/// Reads a sum or a difference. With `negate` set the first addend is
/// negated.
pub fn parse_term(equation: &[char], negate: bool) -> (parsed: Result<Exp, ParseError>)
    ensures
        parsed == term_of(equation@, negate),
    decreases equation.len(), 3nat,
{
    proof {
        lemma_split_text_len(equation@, '+', '-');
    }
    match split_chars(equation, '+', '-') {
        Split::Normal((a, b)) => {
            match parse_factor(a) {
                Err(e) => Err(e),
                Ok(left) => match parse_term(b, false) {
                    Err(e) => Err(e),
                    Ok(right) => Ok(
                        Exp::Term(Box::new(negate_if(left, negate)), Box::new(right)),
                    ),
                },
            }
        },
        Split::Opposite((a, b)) => {
            match parse_factor(a) {
                Err(e) => Err(e),
                Ok(left) => match parse_term(b, true) {
                    Err(e) => Err(e),
                    Ok(right) => Ok(
                        Exp::Term(Box::new(negate_if(left, negate)), Box::new(right)),
                    ),
                },
            }
        },
        Split::Single(a) => {
            match parse_factor(a) {
                Err(e) => Err(e),
                Ok(only) => Ok(negate_if(only, negate)),
            }
        },
    }
}

/// Reads an expression. White space is left out of account.
pub fn parse(equation: &str) -> (parsed: Result<Exp, ParseError>)
    ensures
        parsed == expression_of(equation@),
{
    let chars = to_chars(equation);
    let cleaned = strip_whitespace(chars.as_slice());
    parse_term(cleaned.as_slice(), false)
}

} // verus!
