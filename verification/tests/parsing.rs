use calculatinator::parsing::cleaning::remove_whitespace;
use calculatinator::parsing::parser::{parse, ParseError};
use calculatinator::parsing::splitting::{split_at, Split};
use calculatinator::symbols::constants::Constant;
use calculatinator::symbols::exp::Exp;
use calculatinator::symbols::fpnum::{FPNum, FPNumErrorKind, ParseFPNumError};

fn num(digits: u32) -> Exp {
    Exp::Number(FPNum { digits, decimals: 0 })
}

fn term(a: Exp, b: Exp) -> Exp {
    Exp::Term(Box::new(a), Box::new(b))
}

fn factor(a: Exp, b: Exp) -> Exp {
    Exp::Factor(Box::new(a), Box::new(b))
}

fn pow(a: Exp, b: Exp) -> Exp {
    Exp::Pow(Box::new(a), Box::new(b))
}

fn neg(a: Exp) -> Exp {
    Exp::Negative(Box::new(a))
}

fn inv(a: Exp) -> Exp {
    Exp::Inverse(Box::new(a))
}

#[test]
fn test_terms() {
    assert_eq!(parse("1+1"), Ok(term(num(1), num(1))));
}

#[test]
fn split_at_first_top_level_operator() {
    assert_eq!(split_at("1+2", '+', '-'), Split::Normal(("1", "2")));
    assert_eq!(split_at("1-2+3", '+', '-'), Split::Opposite(("1", "2+3")));
    assert_eq!(split_at("1+2-3", '+', '-'), Split::Normal(("1", "2-3")));
    assert_eq!(split_at("12", '+', '-'), Split::Single("12"));
}

#[test]
fn split_at_never_inside_parentheses() {
    assert_eq!(split_at("(1+2)", '+', '-'), Split::Single("(1+2)"));
    assert_eq!(split_at("(1+2)*3", '+', '-'), Split::Single("(1+2)*3"));
    assert_eq!(split_at("(1+2)-3", '+', '-'), Split::Opposite(("(1+2)", "3")));
    assert_eq!(split_at("((1+2)+3)+4", '+', '-'), Split::Normal(("((1+2)+3)", "4")));
}

#[test]
fn split_at_never_at_the_first_character() {
    assert_eq!(split_at("-1", '+', '-'), Split::Single("-1"));
    assert_eq!(split_at("-1-2", '+', '-'), Split::Opposite(("-1", "2")));
    assert_eq!(split_at("+", '+', '-'), Split::Single("+"));
}

#[test]
fn split_at_keeps_a_sign_behind_a_product_operator() {
    assert_eq!(split_at("2*-3", '+', '-'), Split::Single("2*-3"));
    assert_eq!(split_at("2/-3", '+', '-'), Split::Single("2/-3"));
    assert_eq!(split_at("2*-3+4", '+', '-'), Split::Normal(("2*-3", "4")));
    assert_eq!(split_at("2*(3)+4", '+', '-'), Split::Normal(("2*(3)", "4")));
}

#[test]
fn split_at_degrades_on_an_open_parenthesis() {
    assert_eq!(split_at("(1+2", '+', '-'), Split::Single("(1+2"));
    assert_eq!(split_at("1)+2", '+', '-'), Split::Normal(("1)", "2")));
}

#[test]
fn split_at_trims_and_takes_wide_characters() {
    assert_eq!(split_at("  1+2 ", '+', '-'), Split::Normal(("1", "2")));
    assert_eq!(split_at(" 12\t", '+', '-'), Split::Single("12"));
    assert_eq!(split_at("3√8", '^', '√'), Split::Opposite(("3", "8")));
    assert_eq!(split_at("π^τ", '^', '√'), Split::Normal(("π", "τ")));
    assert_eq!(split_at("", '+', '-'), Split::Single(""));
}

#[test]
fn remove_whitespace_filters() {
    assert_eq!(remove_whitespace(" 1 +\t2\n"), "1+2");
    assert_eq!(remove_whitespace("\u{a0}2\u{2003}π\u{3000}"), "2π");
    assert_eq!(remove_whitespace(""), "");
    assert_eq!(remove_whitespace("abc"), "abc");
}

#[test]
fn parse_precedence() {
    assert_eq!(parse("2*3+4"), Ok(term(factor(num(2), num(3)), num(4))));
    assert_eq!(parse("2+3*4"), Ok(term(num(2), factor(num(3), num(4)))));
    assert_eq!(parse("2*3^4"), Ok(factor(num(2), pow(num(3), num(4)))));
    assert_eq!(parse("(1+2)*3"), Ok(factor(term(num(1), num(2)), num(3))));
    assert_eq!(parse("2*(3)+4"), Ok(term(factor(num(2), num(3)), num(4))));
    assert_eq!(
        parse("(1+2)*(3+4)+5"),
        Ok(term(factor(term(num(1), num(2)), term(num(3), num(4))), num(5)))
    );
}

#[test]
fn parse_subtraction_and_division() {
    assert_eq!(parse("1-2"), Ok(term(num(1), neg(num(2)))));
    assert_eq!(parse("1-2+3"), Ok(term(num(1), term(neg(num(2)), num(3)))));
    assert_eq!(parse("1-2-3"), Ok(term(num(1), term(neg(num(2)), neg(num(3))))));
    assert_eq!(parse("1/2"), Ok(factor(num(1), inv(num(2)))));
    assert_eq!(parse("1/2*3"), Ok(factor(num(1), inv(factor(num(2), num(3))))));
}

#[test]
fn parse_signs() {
    assert_eq!(parse("-1"), Ok(neg(num(1))));
    assert_eq!(parse("-1+2"), Ok(term(neg(num(1)), num(2))));
    assert_eq!(parse("2*-3"), Ok(factor(num(2), neg(num(3)))));
    assert_eq!(parse("-(1+2)"), Ok(neg(term(num(1), num(2)))));
    assert_eq!(parse("2^(-1)"), Ok(pow(num(2), neg(num(1)))));
    assert_eq!(parse("2^-1"), Err(ParseError::EmptyExpression));
}

#[test]
fn parse_powers_and_roots() {
    assert_eq!(parse("2^3"), Ok(pow(num(2), num(3))));
    assert_eq!(parse("2^3^4"), Ok(pow(num(2), pow(num(3), num(4)))));
    assert_eq!(parse("3√8"), Ok(pow(num(8), inv(num(3)))));
    assert_eq!(parse("(2^3)^4"), Ok(pow(pow(num(2), num(3)), num(4))));
}

#[test]
fn parse_constants_and_juxtaposition() {
    assert_eq!(parse("2pi"), Ok(factor(num(2), Exp::Constant(Constant::Pi))));
    assert_eq!(parse("pi"), Ok(Exp::Constant(Constant::Pi)));
    assert_eq!(parse("PI"), Ok(Exp::Constant(Constant::Pi)));
    assert_eq!(parse("π"), Ok(Exp::Constant(Constant::Pi)));
    assert_eq!(parse("Π"), Ok(Exp::Constant(Constant::Pi)));
    assert_eq!(parse("tau"), Ok(Exp::Constant(Constant::Tau)));
    assert_eq!(parse("Tau"), Ok(Exp::Constant(Constant::Tau)));
    assert_eq!(parse("τ"), Ok(Exp::Constant(Constant::Tau)));
    assert_eq!(parse("e"), Ok(Exp::Constant(Constant::E)));
    assert_eq!(parse("i"), Ok(Exp::Constant(Constant::Imaginary)));
    assert_eq!(
        parse("pie"),
        Ok(factor(Exp::Constant(Constant::Pi), Exp::Constant(Constant::E)))
    );
    assert_eq!(
        parse("2e3"),
        Ok(factor(num(2), factor(Exp::Constant(Constant::E), num(3))))
    );
}

#[test]
fn parse_literals() {
    assert_eq!(parse("1.5"), Ok(Exp::Number(FPNum { digits: 15, decimals: 1 })));
    assert_eq!(parse("1,5"), Ok(Exp::Number(FPNum { digits: 15, decimals: 1 })));
    assert_eq!(parse("0.050"), Ok(Exp::Number(FPNum { digits: 50, decimals: 3 })));
    assert_eq!(parse("7."), Ok(Exp::Number(FPNum { digits: 7, decimals: 0 })));
    assert_eq!(parse("4294967295"), Ok(num(4294967295)));
}

#[test]
fn parse_ignores_whitespace() {
    assert_eq!(parse(" 1 + 1 "), parse("1+1"));
    assert_eq!(parse("2 * ( 3 + 4 )"), Ok(factor(num(2), term(num(3), num(4)))));
    assert_eq!(parse("1 2"), Ok(num(12)));
}

#[test]
fn parse_malformed_literal() {
    let invalid = ParseError::MalformedLiteral(ParseFPNumError { kind: FPNumErrorKind::InvalidDigit });
    let overflow = ParseError::MalformedLiteral(ParseFPNumError { kind: FPNumErrorKind::Overflow });
    assert_eq!(parse("1.2.3"), Err(invalid));
    assert_eq!(parse("1,2.3"), Err(invalid));
    assert_eq!(parse("1..2"), Err(invalid));
    assert_eq!(parse("4294967296"), Err(overflow));
    assert_eq!(parse("1+99999999999"), Err(overflow));
}

#[test]
fn parse_unknown_symbol() {
    assert_eq!(parse("x"), Err(ParseError::UnknownSymbol));
    assert_eq!(parse("2x"), Err(ParseError::UnknownSymbol));
    assert_eq!(parse(".5"), Err(ParseError::UnknownSymbol));
    assert_eq!(parse("(1+2"), Err(ParseError::UnknownSymbol));
    assert_eq!(parse("2(3)"), Err(ParseError::UnknownSymbol));
    assert_eq!(parse("1+2)"), Err(ParseError::UnknownSymbol));
}

#[test]
fn parse_empty_expression() {
    assert_eq!(parse(""), Err(ParseError::EmptyExpression));
    assert_eq!(parse("   "), Err(ParseError::EmptyExpression));
    assert_eq!(parse("1+"), Err(ParseError::EmptyExpression));
    assert_eq!(parse("-"), Err(ParseError::EmptyExpression));
    assert_eq!(parse("()"), Err(ParseError::EmptyExpression));
    assert_eq!(parse("2*"), Err(ParseError::EmptyExpression));
}

#[test]
fn parse_reports_the_first_error() {
    assert_eq!(parse("x+"), Err(ParseError::UnknownSymbol));
    assert_eq!(parse("+x"), Err(ParseError::UnknownSymbol));
    assert_eq!(parse("1+x+"), Err(ParseError::UnknownSymbol));
}
