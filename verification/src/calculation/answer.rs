//! The line that answers an expression.

use vstd::prelude::*;
use crate::calculation::fractinator::{
    fraction_of,
    fraction_text,
    fractinate,
    FractionError,
    FractionValue,
};
use crate::calculation::printinator::{print_into, printed};
use crate::parsing::text::{append_chars, from_chars, to_chars};
use crate::symbols::exp::Exp;

verus! {

/// The answer to an expression: its text, ` = `, its exact value, and
/// where the denominator of that value is not 1, the approximation in
/// parentheses behind a space.
pub open spec fn answer_text(
    expression: Seq<char>,
    value: FractionValue,
    approximation: Seq<char>,
) -> Seq<char> {
    let exact = expression + seq![' ', '=', ' '] + fraction_text(value);
    if value.denominator != 1 {
        exact + seq![' ', '('] + approximation + seq![')']
    } else {
        exact
    }
}

/// The line that answers `expression`, given its value in decimal
/// notation, or the reason why it has no exact value.
pub fn answer(expression: &Exp, approximation: &str) -> (line: Result<String, FractionError>)
    ensures
        match line {
            Ok(text) => fraction_of(*expression) matches Ok(value) && text@ == answer_text(
                printed(*expression, false),
                value,
                approximation@,
            ),
            Err(e) => fraction_of(*expression) == Err::<FractionValue, FractionError>(e),
        },
{
    match fractinate(expression) {
        Err(e) => Err(e),
        Ok(fraction) => {
            let mut out: Vec<char> = Vec::new();
            print_into(&mut out, expression, false);
            out.push(' ');
            out.push('=');
            out.push(' ');
            let exact = to_chars(fraction.to_string().as_str());
            append_chars(&mut out, &exact);
            assert(out@ == printed(*expression, false) + seq![' ', '=', ' '] + fraction_text(
                fraction@,
            ));
            if fraction.denominator != 1 {
                let ghost before = out@;
                out.push(' ');
                out.push('(');
                let decimal = to_chars(approximation);
                append_chars(&mut out, &decimal);
                out.push(')');
                assert(out@ == before + seq![' ', '('] + approximation@ + seq![')']);
            }
            Ok(from_chars(out.as_slice()))
        },
    }
}

} // verus!
