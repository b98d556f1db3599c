use calculatinator::discrete::monomial::{greatest_common_divisor, greatest_common_divisor_wide};
use calculatinator::parsing::cleaning::char_is_whitespace;
use calculatinator::symbols::constants::{constant_str, match_constant, rank_of, Constant};
use calculatinator::symbols::fpnum::{FPNum, FPNumErrorKind, ParseFPNumError};

fn kind(text: &str) -> Option<FPNumErrorKind> {
    match FPNum::parse(text) {
        Ok(_) => None,
        Err(ParseFPNumError { kind }) => Some(kind),
    }
}

#[test]
fn gcd_of_positive_numbers() {
    assert_eq!(greatest_common_divisor(12, 18), 6);
    assert_eq!(greatest_common_divisor(18, 12), 6);
    assert_eq!(greatest_common_divisor(7, 13), 1);
    assert_eq!(greatest_common_divisor(5, 5), 5);
    assert_eq!(greatest_common_divisor(1, 4294967295), 1);
    assert_eq!(greatest_common_divisor(4294967295, 65535), 65535);
}

#[test]
fn gcd_is_one_when_an_operand_is_zero() {
    assert_eq!(greatest_common_divisor(0, 5), 1);
    assert_eq!(greatest_common_divisor(5, 0), 1);
    assert_eq!(greatest_common_divisor(0, 0), 1);
    assert_eq!(greatest_common_divisor_wide(0, 1 << 100), 1);
}

#[test]
fn gcd_wide() {
    assert_eq!(greatest_common_divisor_wide(1 << 70, 1 << 65), 1 << 65);
    assert_eq!(greatest_common_divisor_wide(3 * (1 << 64), 9), 3);
}

#[test]
fn literal_with_and_without_separator() {
    assert_eq!(FPNum::parse("12"), Ok(FPNum { digits: 12, decimals: 0 }));
    assert_eq!(FPNum::parse("1.5"), Ok(FPNum { digits: 15, decimals: 1 }));
    assert_eq!(FPNum::parse("1,5"), Ok(FPNum { digits: 15, decimals: 1 }));
    assert_eq!(FPNum::parse("1."), Ok(FPNum { digits: 1, decimals: 0 }));
    assert_eq!(FPNum::parse(".5"), Ok(FPNum { digits: 5, decimals: 1 }));
    assert_eq!(FPNum::parse("3.140"), Ok(FPNum { digits: 3140, decimals: 3 }));
    assert_eq!(FPNum::parse("007"), Ok(FPNum { digits: 7, decimals: 0 }));
    assert_eq!(FPNum::parse("0.0000000001"), Ok(FPNum { digits: 1, decimals: 10 }));
    assert_eq!(FPNum::parse("4294967295"), Ok(FPNum { digits: 4294967295, decimals: 0 }));
}

#[test]
fn literal_from_str() {
    assert_eq!("2.25".parse::<FPNum>(), Ok(FPNum { digits: 225, decimals: 2 }));
    assert_eq!(
        "2.2.5".parse::<FPNum>(),
        Err(ParseFPNumError { kind: FPNumErrorKind::InvalidDigit })
    );
}

#[test]
fn literal_errors() {
    assert_eq!(kind(""), Some(FPNumErrorKind::Empty));
    assert_eq!(kind("."), Some(FPNumErrorKind::Empty));
    assert_eq!(kind(","), Some(FPNumErrorKind::Empty));
    assert_eq!(kind("1a"), Some(FPNumErrorKind::InvalidDigit));
    assert_eq!(kind("+5"), Some(FPNumErrorKind::InvalidDigit));
    assert_eq!(kind("-5"), Some(FPNumErrorKind::InvalidDigit));
    assert_eq!(kind("1.2.3"), Some(FPNumErrorKind::InvalidDigit));
    assert_eq!(kind("1,2,3"), Some(FPNumErrorKind::InvalidDigit));
    assert_eq!(kind("1 2"), Some(FPNumErrorKind::InvalidDigit));
    assert_eq!(kind("٣"), Some(FPNumErrorKind::InvalidDigit));
    assert_eq!(kind("4294967296"), Some(FPNumErrorKind::Overflow));
    assert_eq!(kind("42949672.96"), Some(FPNumErrorKind::Overflow));
    assert_eq!(kind("99999999999999999999999999999999999999999"), Some(FPNumErrorKind::Overflow));
    assert_eq!(kind("99999999999x"), Some(FPNumErrorKind::InvalidDigit));
}

#[test]
fn literal_from_split() {
    let one: Vec<char> = "1".chars().collect();
    let five: Vec<char> = "05".chars().collect();
    assert_eq!(FPNum::from_split(&one, &five), Ok(FPNum { digits: 105, decimals: 2 }));
    assert_eq!(FPNum::from_split(&one, &[]), Ok(FPNum { digits: 1, decimals: 0 }));
    assert_eq!(
        FPNum::from_split(&[], &[]),
        Err(ParseFPNumError { kind: FPNumErrorKind::Empty })
    );
}

#[test]
fn literal_default() {
    assert_eq!(FPNum::default(), FPNum { digits: 0, decimals: 0 });
}

#[test]
fn literal_to_string() {
    assert_eq!(FPNum { digits: 0, decimals: 0 }.to_string(), "0");
    assert_eq!(FPNum { digits: 12, decimals: 0 }.to_string(), "12");
    assert_eq!(FPNum { digits: 15, decimals: 1 }.to_string(), "1.5");
    assert_eq!(FPNum { digits: 5, decimals: 1 }.to_string(), "0.5");
    assert_eq!(FPNum { digits: 5, decimals: 3 }.to_string(), "0.005");
    assert_eq!(FPNum { digits: 100, decimals: 2 }.to_string(), "1");
    assert_eq!(FPNum { digits: 1500, decimals: 1 }.to_string(), "150");
    assert_eq!(FPNum { digits: 1205, decimals: 3 }.to_string(), "1.205");
    assert_eq!(FPNum { digits: 1250, decimals: 3 }.to_string(), "1.25");
    assert_eq!(FPNum { digits: 0, decimals: 4 }.to_string(), "0");
    assert_eq!(FPNum { digits: 4294967295, decimals: 0 }.to_string(), "4294967295");
    assert_eq!(FPNum { digits: 4294967295, decimals: 9 }.to_string(), "4.294967295");
    assert_eq!(FPNum { digits: 1, decimals: 12 }.to_string(), "0.000000000001");
}

#[test]
fn literal_to_string_agrees_with_floats() {
    let cases = [(15u32, 1u32), (5, 1), (100, 2), (1205, 3), (0, 0), (1, 9), (123456789, 4)];
    for (digits, decimals) in cases {
        let value = digits as f64 / 10f64.powi(decimals as i32);
        assert_eq!(FPNum { digits, decimals }.to_string(), format!("{}", value));
    }
}

#[test]
fn constant_names() {
    assert_eq!(constant_str(&Constant::Pi), "π");
    assert_eq!(constant_str(&Constant::Tau), "τ");
    assert_eq!(constant_str(&Constant::E), "e");
    assert_eq!(constant_str(&Constant::Euler), "γ");
    assert_eq!(constant_str(&Constant::GoldenRatio), "ϕ");
    assert_eq!(constant_str(&Constant::Imaginary), "i");
    assert_eq!(constant_str(&Constant::Variable('x')), "x");
}

#[test]
fn constant_order() {
    assert_eq!(rank_of(Constant::Pi), 0);
    assert_eq!(rank_of(Constant::Imaginary), 5);
    assert_eq!(rank_of(Constant::Variable('a')), 6 + 97);
    assert!(Constant::Pi < Constant::Tau);
    assert!(Constant::Imaginary < Constant::Variable('a'));
    assert!(Constant::Variable('a') < Constant::Variable('b'));
}

#[test]
fn constant_lookup_takes_the_longest_name() {
    let text: Vec<char> = "tau2".chars().collect();
    assert_eq!(match_constant(&text), Some((Constant::Tau, 3)));
    let text: Vec<char> = "TaU".chars().collect();
    assert_eq!(match_constant(&text), Some((Constant::Tau, 3)));
    let text: Vec<char> = "ta".chars().collect();
    assert_eq!(match_constant(&text), None);
    let text: Vec<char> = "pI".chars().collect();
    assert_eq!(match_constant(&text), Some((Constant::Pi, 2)));
    let text: Vec<char> = "p".chars().collect();
    assert_eq!(match_constant(&text), None);
    let text: Vec<char> = "ie".chars().collect();
    assert_eq!(match_constant(&text), Some((Constant::Imaginary, 1)));
    let text: Vec<char> = "Τ".chars().collect();
    assert_eq!(match_constant(&text), Some((Constant::Tau, 1)));
    assert_eq!(match_constant(&[]), None);
}

#[test]
fn literal_is_read_back_with_the_same_value() {
    let cases = [(15u32, 1u32), (5, 1), (100, 2), (1205, 3), (0, 0), (0, 5), (1, 9), (4294967295, 7), (1000, 3), (1230, 2)];
    for (digits, decimals) in cases {
        let written = FPNum { digits, decimals }.to_string();
        let read = FPNum::parse(&written).unwrap();
        assert_eq!(
            read.digits as u128 * 10u128.pow(decimals),
            digits as u128 * 10u128.pow(read.decimals),
            "{}",
            written
        );
    }
}

#[test]
fn white_space_is_the_unicode_set() {
    for code in 0..=0x10ffffu32 {
        if let Some(c) = char::from_u32(code) {
            assert_eq!(char_is_whitespace(c), c.is_whitespace(), "{:x}", code);
        }
    }
}
