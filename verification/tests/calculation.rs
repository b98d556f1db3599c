use calculatinator::calculation::answer::answer;
use calculatinator::calculation::exponents::{invert_constants, merge_constants};
use calculatinator::calculation::fractinator::{
    add_up, checked_power, fractinate, invert, multiply, raise, Fraction, FractionError,
};
use calculatinator::calculation::printinator::printinate;
use calculatinator::discrete::monomial::greatest_common_divisor;
use calculatinator::parsing::parser::parse;
use calculatinator::symbols::constants::Constant;
use calculatinator::symbols::exp::Exp;
use calculatinator::symbols::fpnum::FPNum;

fn num(digits: u32) -> Exp {
    Exp::Number(FPNum { digits, decimals: 0 })
}

fn term(a: Exp, b: Exp) -> Exp {
    Exp::Term(Box::new(a), Box::new(b))
}

fn factor(a: Exp, b: Exp) -> Exp {
    Exp::Factor(Box::new(a), Box::new(b))
}

fn pow(a: Exp, b: Exp) -> Exp {
    Exp::Pow(Box::new(a), Box::new(b))
}

fn neg(a: Exp) -> Exp {
    Exp::Negative(Box::new(a))
}

fn inv(a: Exp) -> Exp {
    Exp::Inverse(Box::new(a))
}

fn frac(numerator: u32, denominator: u32, positive: bool) -> Fraction {
    Fraction { numerator, denominator, consts: vec![], positive }
}

/// The floating-point value of an expression.
fn float_of(expression: &Exp) -> f64 {
    match expression {
        Exp::Term(a, b) => float_of(a) + float_of(b),
        Exp::Factor(a, b) => float_of(a) * float_of(b),
        Exp::Pow(a, b) => f64::powf(float_of(a), float_of(b)),
        Exp::Negative(a) => -float_of(a),
        Exp::Inverse(a) => f64::powi(float_of(a), -1),
        Exp::Number(value) => value.digits as f64 / 10f64.powi(value.decimals as i32),
        Exp::Constant(constant) => match constant {
            Constant::Pi => std::f64::consts::PI,
            Constant::Tau => std::f64::consts::TAU,
            Constant::E => std::f64::consts::E,
            _ => 1.,
        },
    }
}

/// The floating-point value of a fraction without constants.
fn float_of_fraction(fraction: &Fraction) -> f64 {
    let magnitude = fraction.numerator as f64 / fraction.denominator as f64;
    if fraction.positive {
        magnitude
    } else {
        -magnitude
    }
}

fn exact(text: &str) -> String {
    fractinate(&parse(text).unwrap()).unwrap().to_string()
}

fn float(text: &str) -> f64 {
    float_of(&parse(text).unwrap())
}

#[test]
fn scenario_one_plus_one() {
    assert_eq!(parse("1+1"), Ok(term(num(1), num(1))));
    assert_eq!(float("1+1"), 2.0);
    assert_eq!(exact("1+1"), "2");
}

#[test]
fn scenario_product_and_sum() {
    assert_eq!(float("2*3+4"), 10.0);
    assert_eq!(exact("2*3+4"), "10");
}

#[test]
fn scenario_halves() {
    assert_eq!(exact("1/2+1/2"), "1");
    assert_eq!(float("1/2+1/2"), 1.0);
    let sum = fractinate(&parse("1/2+1/2").unwrap()).unwrap();
    assert_eq!(sum, frac(1, 1, true));
}

#[test]
fn scenario_power() {
    assert_eq!(float("2^3"), 8.0);
    assert_eq!(exact("2^3"), "8");
}

#[test]
fn scenario_parentheses() {
    assert_eq!(float("(1+2)*3"), 9.0);
    assert_eq!(exact("(1+2)*3"), "9");
}

#[test]
fn scenario_two_pi() {
    assert_eq!(parse("2pi"), Ok(factor(num(2), Exp::Constant(Constant::Pi))));
    assert!((float("2pi") - 6.283185307179586).abs() < 1e-12);
    assert_eq!(exact("2pi"), "2π");
}

#[test]
fn scenario_division_by_zero() {
    let tree = parse("1/0").unwrap();
    assert_eq!(fractinate(&tree), Err(FractionError::DivisionByZero));
    assert_eq!(float_of(&tree), f64::INFINITY);
}

#[test]
fn sums_are_reduced() {
    assert_eq!(fractinate(&parse("1/6+1/3").unwrap()), Ok(frac(1, 2, true)));
    assert_eq!(fractinate(&parse("1/4+1/4").unwrap()), Ok(frac(1, 2, true)));
    assert_eq!(fractinate(&parse("3/4-1/4").unwrap()), Ok(frac(1, 2, true)));
    assert_eq!(fractinate(&parse("1/4-3/4").unwrap()), Ok(frac(1, 2, false)));
    assert_eq!(fractinate(&parse("0.5+0.5").unwrap()), Ok(frac(1, 1, true)));
    assert_eq!(fractinate(&parse("-1/3-1/6").unwrap()), Ok(frac(1, 2, false)));
}

#[test]
fn products_are_reduced() {
    assert_eq!(fractinate(&parse("2/4").unwrap()), Ok(frac(1, 2, true)));
    assert_eq!(fractinate(&parse("6*1/4").unwrap()), Ok(frac(3, 2, true)));
    assert_eq!(fractinate(&parse("0.5*4").unwrap()), Ok(frac(2, 1, true)));
    assert_eq!(fractinate(&parse("2*-3").unwrap()), Ok(frac(6, 1, false)));
    assert_eq!(fractinate(&parse("-2*-3").unwrap()), Ok(frac(6, 1, true)));
    assert_eq!(fractinate(&parse("65536*65536/65536").unwrap()), Ok(frac(65536, 1, true)));
}

#[test]
fn results_are_coprime_with_positive_denominator() {
    for text in ["2/4", "1/6+1/3", "6*10/4", "3/9-1/9", "12*1/18", "0.25+0.5", "7/7"] {
        let value = fractinate(&parse(text).unwrap()).unwrap();
        assert!(value.denominator >= 1);
        assert_eq!(greatest_common_divisor(value.numerator, value.denominator), 1);
    }
}

#[test]
fn zero_keeps_its_denominator() {
    assert_eq!(fractinate(&parse("0*1/2").unwrap()), Ok(frac(0, 2, true)));
    assert_eq!(fractinate(&parse("1/2-1/2").unwrap()), Ok(frac(0, 2, true)));
}

#[test]
fn a_tie_takes_the_sign_of_the_left_operand() {
    assert_eq!(fractinate(&parse("1-1").unwrap()), Ok(frac(0, 1, true)));
    assert_eq!(fractinate(&parse("-1+1").unwrap()), Ok(frac(0, 1, false)));
}

#[test]
fn numbers_are_not_reduced() {
    assert_eq!(fractinate(&parse("0.5").unwrap()), Ok(frac(5, 10, true)));
    assert_eq!(fractinate(&parse("2.50").unwrap()), Ok(frac(250, 100, true)));
    assert_eq!(fractinate(&parse("-0.5").unwrap()), Ok(frac(5, 10, false)));
}

#[test]
fn powers() {
    assert_eq!(fractinate(&parse("(2/3)^3").unwrap()), Ok(frac(8, 27, true)));
    assert_eq!(fractinate(&parse("(-2)^2").unwrap()), Ok(frac(4, 1, true)));
    assert_eq!(fractinate(&parse("(-2)^3").unwrap()), Ok(frac(8, 1, false)));
    assert_eq!(fractinate(&parse("0^0").unwrap()), Ok(frac(1, 1, true)));
    assert_eq!(fractinate(&parse("5^0").unwrap()), Ok(frac(1, 1, true)));
    assert_eq!(fractinate(&parse("0^5").unwrap()), Ok(frac(0, 1, true)));
    assert_eq!(fractinate(&parse("1^4294967295").unwrap()), Ok(frac(1, 1, true)));
    assert_eq!(fractinate(&parse("2^31").unwrap()), Ok(frac(2147483648, 1, true)));
    assert_eq!(fractinate(&parse("2^(4/2)").unwrap()), Ok(frac(4, 1, true)));
}

#[test]
fn the_sign_of_an_exponent_is_not_used() {
    assert_eq!(fractinate(&parse("2^(-1)").unwrap()), Ok(frac(2, 1, true)));
}

#[test]
fn unsupported_root() {
    assert_eq!(fractinate(&parse("4√16").unwrap()), Err(FractionError::UnsupportedRoot));
    assert_eq!(fractinate(&parse("2^0.5").unwrap()), Err(FractionError::UnsupportedRoot));
    assert_eq!(fractinate(&parse("2^(1/2)").unwrap()), Err(FractionError::UnsupportedRoot));
    assert_eq!(fractinate(&parse("2^2.0").unwrap()), Err(FractionError::UnsupportedRoot));
}

#[test]
fn overflow() {
    assert_eq!(fractinate(&parse("65536*65536").unwrap()), Err(FractionError::Overflow));
    assert_eq!(fractinate(&parse("4294967295+1").unwrap()), Err(FractionError::Overflow));
    assert_eq!(fractinate(&parse("10^10").unwrap()), Err(FractionError::Overflow));
    assert_eq!(fractinate(&parse("2^32").unwrap()), Err(FractionError::Overflow));
    assert_eq!(fractinate(&parse("0.0000000001").unwrap()), Err(FractionError::Overflow));
    assert_eq!(fractinate(&parse("1/65537+1/65539").unwrap()), Err(FractionError::Overflow));
    assert_eq!(fractinate(&parse("4294967295+0").unwrap()), Ok(frac(4294967295, 1, true)));
}

#[test]
fn division_by_zero() {
    assert_eq!(fractinate(&inv(num(0))), Err(FractionError::DivisionByZero));
    assert_eq!(fractinate(&parse("1/(1-1)").unwrap()), Err(FractionError::DivisionByZero));
    assert_eq!(fractinate(&parse("1/0+2^0.5").unwrap()), Err(FractionError::DivisionByZero));
    assert_eq!(fractinate(&parse("2^0.5+1/0").unwrap()), Err(FractionError::UnsupportedRoot));
}

#[test]
fn checked_power_values() {
    assert_eq!(checked_power(2, 10), Some(1024));
    assert_eq!(checked_power(10, 9), Some(1000000000));
    assert_eq!(checked_power(10, 10), None);
    assert_eq!(checked_power(0, 0), Some(1));
    assert_eq!(checked_power(0, 7), Some(0));
    assert_eq!(checked_power(1, 4294967295), Some(1));
    assert_eq!(checked_power(65535, 2), Some(4294836225));
    assert_eq!(checked_power(65536, 2), None);
}

#[test]
fn operations_on_fractions() {
    assert_eq!(add_up(&frac(1, 2, true), &frac(1, 3, true)), Ok(frac(5, 6, true)));
    assert_eq!(add_up(&frac(1, 2, true), &frac(1, 3, false)), Ok(frac(1, 6, true)));
    assert_eq!(add_up(&frac(1, 3, true), &frac(1, 2, false)), Ok(frac(1, 6, false)));
    assert_eq!(multiply(&frac(2, 3, true), &frac(3, 4, false)), Ok(frac(1, 2, false)));
    assert_eq!(invert(&frac(2, 3, false)), Ok(frac(3, 2, false)));
    assert_eq!(invert(&frac(0, 3, true)), Err(FractionError::DivisionByZero));
    assert_eq!(raise(frac(2, 3, false), &frac(2, 1, true)), Ok(frac(4, 9, true)));
    assert_eq!(raise(frac(2, 3, true), &frac(1, 2, true)), Err(FractionError::UnsupportedRoot));
}

#[test]
fn constants_are_merged_in_products() {
    let value = fractinate(&parse("pi*pi").unwrap()).unwrap();
    assert_eq!(value.consts, vec![(Constant::Pi, 2)]);
    let value = fractinate(&parse("pi/pi").unwrap()).unwrap();
    assert_eq!(value.consts, vec![]);
    assert_eq!(value.to_string(), "1");
    let value = fractinate(&parse("e*2pi/tau").unwrap()).unwrap();
    assert_eq!(value.consts, vec![(Constant::Pi, 1), (Constant::Tau, -1), (Constant::E, 1)]);
    assert_eq!(value.to_string(), "2πe/τ");
    let value = fractinate(&parse("1/(pi*e*e)").unwrap()).unwrap();
    assert_eq!(value.consts, vec![(Constant::Pi, -1), (Constant::E, -2)]);
}

#[test]
fn constants_are_dropped_in_sums() {
    let value = fractinate(&parse("pi+pi").unwrap()).unwrap();
    assert_eq!(value, frac(2, 1, true));
}

#[test]
fn merge_constants_adds_and_cancels() {
    let a = vec![(Constant::Pi, 1), (Constant::E, 2)];
    let b = vec![(Constant::Pi, -1), (Constant::Tau, 3)];
    assert_eq!(merge_constants(&a, &b), Some(vec![(Constant::Tau, 3), (Constant::E, 2)]));
    assert_eq!(merge_constants(&a, &vec![]), Some(a.clone()));
    assert_eq!(merge_constants(&vec![], &b), Some(b.clone()));
    let x = vec![(Constant::Variable('x'), 2)];
    let y = vec![(Constant::Variable('a'), 1), (Constant::Variable('x'), 5)];
    assert_eq!(
        merge_constants(&x, &y),
        Some(vec![(Constant::Variable('a'), 1), (Constant::Variable('x'), 7)])
    );
}

#[test]
fn merge_constants_overflow() {
    let a = vec![(Constant::Pi, i32::MAX)];
    let b = vec![(Constant::Pi, 1)];
    assert_eq!(merge_constants(&a, &b), None);
    let c = vec![(Constant::Pi, i32::MIN)];
    assert_eq!(merge_constants(&c, &vec![(Constant::Pi, -1)]), None);
    assert_eq!(merge_constants(&a, &c), Some(vec![(Constant::Pi, -1)]));
}

#[test]
fn invert_constants_negates() {
    let a = vec![(Constant::Pi, 1), (Constant::E, -2)];
    assert_eq!(invert_constants(&a), Some(vec![(Constant::Pi, -1), (Constant::E, 2)]));
    assert_eq!(invert_constants(&vec![(Constant::Pi, i32::MIN)]), None);
    let huge = Fraction { numerator: 1, denominator: 1, consts: vec![(Constant::E, i32::MIN)], positive: true };
    assert_eq!(invert(&huge), Err(FractionError::Overflow));
}

#[test]
fn fraction_default() {
    assert_eq!(Fraction::default(), frac(0, 1, true));
}

#[test]
fn fraction_to_string() {
    assert_eq!(frac(0, 1, true).to_string(), "0");
    assert_eq!(frac(1, 2, true).to_string(), "1/2");
    assert_eq!(frac(3, 1, false).to_string(), "-3");
    assert_eq!(frac(10, 3, false).to_string(), "-10/3");
    let value = Fraction {
        numerator: 3,
        denominator: 4,
        consts: vec![(Constant::Pi, 1), (Constant::E, -2)],
        positive: true,
    };
    assert_eq!(value.to_string(), "3π/4e^2");
    let value = Fraction { numerator: 1, denominator: 1, consts: vec![(Constant::Pi, 1)], positive: true };
    assert_eq!(value.to_string(), "π");
    let value = Fraction { numerator: 1, denominator: 1, consts: vec![(Constant::Pi, -1)], positive: false };
    assert_eq!(value.to_string(), "-1/π");
    let value = Fraction {
        numerator: 1,
        denominator: 2,
        consts: vec![(Constant::Tau, 12), (Constant::Variable('x'), -3)],
        positive: true,
    };
    assert_eq!(value.to_string(), "τ^12/2x^3");
    let value = Fraction { numerator: 2, denominator: 1, consts: vec![(Constant::E, i32::MIN)], positive: true };
    assert_eq!(value.to_string(), "2/e^2147483648");
}

#[test]
fn printinate_sums() {
    assert_eq!(printinate(&parse("1+1").unwrap(), false), "1+1");
    assert_eq!(printinate(&parse("1+1").unwrap(), true), "(1+1)");
    assert_eq!(printinate(&parse("1-2").unwrap(), false), "1-2");
    assert_eq!(printinate(&parse("1-2+3").unwrap(), false), "1-2+3");
    assert_eq!(printinate(&term(num(1), neg(term(num(2), num(3)))), false), "1-(2+3)");
    assert_eq!(printinate(&term(term(num(1), num(2)), num(3)), false), "1+2+3");
}

#[test]
fn printinate_products() {
    assert_eq!(printinate(&parse("2*3+4").unwrap(), false), "2*3+4");
    assert_eq!(printinate(&parse("(1+2)*3").unwrap(), false), "(1+2)*3");
    assert_eq!(printinate(&parse("1/2").unwrap(), false), "1/2");
    assert_eq!(printinate(&factor(num(2), factor(num(3), num(4))), false), "2*(3*4)");
    assert_eq!(printinate(&factor(num(2), num(3)), true), "(2*3)");
    assert_eq!(printinate(&factor(num(1), inv(term(num(1), num(2)))), false), "1/(1+2)");
}

#[test]
fn printinate_powers_negations_and_inverses() {
    assert_eq!(printinate(&parse("2^3").unwrap(), false), "2^3");
    assert_eq!(printinate(&pow(factor(num(2), num(3)), num(2)), false), "(2*3)^2");
    assert_eq!(printinate(&pow(num(2), inv(num(3))), false), "2^(1/3)");
    assert_eq!(printinate(&neg(num(1)), false), "-1");
    assert_eq!(printinate(&neg(num(1)), true), "(-1)");
    assert_eq!(printinate(&neg(term(num(1), num(2))), false), "-(1+2)");
    assert_eq!(printinate(&inv(num(2)), false), "1/2");
    assert_eq!(printinate(&inv(num(2)), true), "(1/2)");
    assert_eq!(printinate(&factor(neg(num(2)), num(3)), false), "(-2)*3");
}

#[test]
fn printinate_leaves() {
    assert_eq!(printinate(&num(12), true), "12");
    assert_eq!(printinate(&Exp::Number(FPNum { digits: 15, decimals: 1 }), false), "1.5");
    assert_eq!(printinate(&Exp::Constant(Constant::Pi), true), "π");
    assert_eq!(printinate(&Exp::Constant(Constant::Variable('x')), false), "x");
    assert_eq!(printinate(&parse("2pi").unwrap(), false), "2*π");
}

#[test]
fn float_and_fraction_agree() {
    for text in ["1/2+1/3", "2*3+4", "(1+2)*3/7", "2^3-1/8", "-(1/3)^3", "0.25*8", "1-2-3", "3/(1+2)"] {
        let tree = parse(text).unwrap();
        let exact = fractinate(&tree).unwrap();
        assert!((float_of(&tree) - float_of_fraction(&exact)).abs() < 1e-9, "{}", text);
    }
}

#[test]
fn printed_expressions_parse_to_the_same_value() {
    let trees = vec![
        parse("(1+2)*(3+4)+5").unwrap(),
        parse("1-2+3").unwrap(),
        parse("2*-3").unwrap(),
        parse("3√8").unwrap(),
        parse("2pi/e").unwrap(),
        parse("0.5^2").unwrap(),
        pow(factor(num(2), num(3)), num(2)),
        pow(num(2), inv(num(3))),
        neg(neg(num(1))),
        term(num(1), neg(term(num(2), num(3)))),
        factor(inv(num(4)), inv(term(num(1), num(1)))),
        term(neg(num(1)), term(neg(num(2)), neg(num(3)))),
    ];
    for tree in trees {
        let text = printinate(&tree, false);
        let again = parse(&text).unwrap();
        assert!((float_of(&tree) - float_of(&again)).abs() < 1e-9, "{}", text);
    }
}

#[test]
fn answer_lines() {
    assert_eq!(answer(&parse("1+1").unwrap(), "2"), Ok(String::from("1+1 = 2")));
    assert_eq!(answer(&parse("1/2+1/2").unwrap(), "1"), Ok(String::from("1/2+1/2 = 1")));
    assert_eq!(answer(&parse("1/3").unwrap(), "0.333"), Ok(String::from("1/3 = 1/3 (0.333)")));
    assert_eq!(answer(&parse("2pi").unwrap(), "6.28"), Ok(String::from("2*π = 2π")));
    assert_eq!(answer(&parse("pi/2").unwrap(), "1.57"), Ok(String::from("π/2 = π/2 (1.57)")));
    assert_eq!(answer(&parse("1/0").unwrap(), "inf"), Err(FractionError::DivisionByZero));
}

#[test]
fn fraction_to_str_leaves_constants_out() {
    assert_eq!(frac(1, 2, false).to_str(), "-1/2");
    assert_eq!(frac(7, 1, true).to_str(), "7");
    let value = Fraction { numerator: 1, denominator: 1, consts: vec![(Constant::Pi, 1)], positive: true };
    assert_eq!(value.to_str(), "1");
}

#[test]
fn expressions_can_be_cloned() {
    let tree = parse("-(1+2)*3^pi/4").unwrap();
    assert_eq!(tree.clone(), tree);
}

fn same_float(a: f64, b: f64) -> bool {
    if a.is_nan() || b.is_nan() {
        return a.is_nan() && b.is_nan();
    }
    if a.is_infinite() || b.is_infinite() {
        return a == b;
    }
    (a - b).abs() <= 1e-9 * (1.0 + a.abs().max(b.abs()))
}

fn grown(trees: &Vec<Exp>) -> Vec<Exp> {
    let mut all: Vec<Exp> = trees.clone();
    for a in trees {
        all.push(neg(a.clone()));
        all.push(inv(a.clone()));
        for b in trees {
            all.push(term(a.clone(), b.clone()));
            all.push(factor(a.clone(), b.clone()));
            all.push(pow(a.clone(), b.clone()));
        }
    }
    all
}

#[test]
fn every_small_expression_is_read_back_with_the_same_value() {
    let leaves = vec![
        num(1),
        num(2),
        Exp::Number(FPNum { digits: 5, decimals: 1 }),
        Exp::Constant(Constant::Pi),
    ];
    let trees = grown(&grown(&leaves));
    assert!(trees.len() > 10000);
    for tree in trees {
        let text = printinate(&tree, false);
        let again = match parse(&text) {
            Ok(again) => again,
            Err(error) => panic!("{} is not read back: {:?}", text, error),
        };
        assert!(same_float(float_of(&tree), float_of(&again)), "{}", text);
        assert_eq!(printinate(&again, false), printinate(&parse(&printinate(&again, false)).unwrap(), false));
    }
}
