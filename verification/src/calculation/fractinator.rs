//! The exact evaluator: an expression tree is worth a reduced fraction
//! times powers of named constants.

use vstd::prelude::*;
use vstd::arithmetic::power::pow;
use crate::calculation::exponents::{
    lemma_inverted_well_formed,
    lemma_merged_well_formed,
    well_formed,
    exponents_fit,
    exponents_of,
    invert_constants,
    inverted,
    merge_constants,
    merged,
};
use crate::discrete::monomial::{
    coprime,
    gcd,
    greatest_common_divisor,
    greatest_common_divisor_wide,
    lemma_reduced,
};
use crate::parsing::text::{append_chars, from_chars};
use crate::symbols::constants::{constant_name, push_constant, Constant};
use crate::symbols::exp::Exp;
use crate::symbols::fpnum::{decimal_digits, push_decimal, FPNum};

verus! {

/// What a fraction is in mathematical terms.
pub struct FractionValue {
    pub numerator: nat,
    pub denominator: nat,
    pub positive: bool,
    /// The powers of constants that the fraction is multiplied by.
    pub exponents: Seq<(Constant, int)>,
}

/// `numerator / denominator`, negated unless `positive`, times the
/// constants of `consts`, each raised to the exponent listed with it.
#[derive(Debug, PartialEq, Eq)]
pub struct Fraction {
    pub numerator: u32,
    pub denominator: u32,
    pub consts: Vec<(Constant, i32)>,
    pub positive: bool,
}

/// Why an expression has no exact value.
#[derive(Debug, PartialEq, Eq, Copy, Clone, Structural)]
pub enum FractionError {
    /// The reciprocal of zero was asked for.
    DivisionByZero,
    /// An exponent is no whole number: roots are not taken exactly.
    UnsupportedRoot,
    /// A numerator, a denominator or an exponent does not fit in 32 bits.
    Overflow,
}

impl View for Fraction {
    type V = FractionValue;

    open spec fn view(&self) -> FractionValue {
        FractionValue {
            numerator: self.numerator as nat,
            denominator: self.denominator as nat,
            positive: self.positive,
            exponents: exponents_of(self.consts@),
        }
    }
}

/// The value can be held in a `Fraction`.
pub open spec fn value_fits(value: FractionValue) -> bool {
    &&& value.numerator <= u32::MAX
    &&& value.denominator <= u32::MAX
    &&& exponents_fit(value.exponents)
}

/// `value`, or an overflow where it cannot be held in a `Fraction`.
pub open spec fn checked(value: FractionValue) -> Result<FractionValue, FractionError> {
    if value_fits(value) {
        Ok(value)
    } else {
        Err(FractionError::Overflow)
    }
}

/// The value of a literal: its digits over the power of ten of its
/// decimals, not reduced.
pub open spec fn number_value(number: FPNum) -> Result<FractionValue, FractionError> {
    checked(
        FractionValue {
            numerator: number.digits as nat,
            denominator: pow(10, number.decimals as nat) as nat,
            positive: true,
            exponents: Seq::empty(),
        },
    )
}

/// The value of a constant: the constant itself, once.
pub open spec fn constant_value(constant: Constant) -> FractionValue {
    FractionValue {
        numerator: 1,
        denominator: 1,
        positive: true,
        exponents: seq![(constant, 1int)],
    }
}

/// The negation: the sign turned, all else kept.
pub open spec fn negation(a: FractionValue) -> FractionValue {
    FractionValue { positive: !a.positive, ..a }
}

/// The reciprocal: numerator and denominator change places and every
/// exponent is negated. Zero has none.
pub open spec fn reciprocal(a: FractionValue) -> Result<FractionValue, FractionError> {
    if a.numerator == 0 {
        Err(FractionError::DivisionByZero)
    } else {
        checked(
            FractionValue {
                numerator: a.denominator,
                denominator: a.numerator,
                positive: a.positive,
                exponents: inverted(a.exponents),
            },
        )
    }
}

/// The product, reduced to lowest terms, with the exponents of both
/// factors added. It is positive where the signs of the factors agree.
pub open spec fn product(a: FractionValue, b: FractionValue) -> Result<
    FractionValue,
    FractionError,
> {
    let numerator = a.numerator * b.numerator;
    let denominator = a.denominator * b.denominator;
    let g = gcd(numerator, denominator);
    checked(
        FractionValue {
            numerator: numerator / g,
            denominator: denominator / g,
            positive: a.positive == b.positive,
            exponents: merged(a.exponents, b.exponents),
        },
    )
}

/// The numerator of `a` when `a` and `b` are brought to their common
/// denominator.
pub open spec fn scaled_numerator(a: FractionValue, b: FractionValue) -> nat {
    a.numerator * b.denominator / gcd(a.denominator, b.denominator)
}

/// The sum, reduced to lowest terms. Where the signs differ it has the
/// sign of the operand of greater magnitude, and that of `a` where the
/// magnitudes are equal. The constants of the operands are not kept.
pub open spec fn sum(a: FractionValue, b: FractionValue) -> Result<FractionValue, FractionError> {
    let a_num = scaled_numerator(a, b);
    let b_num = scaled_numerator(b, a);
    let denominator = a.denominator * b.denominator / gcd(a.denominator, b.denominator);
    let numerator = if a.positive == b.positive {
        a_num + b_num
    } else if a_num >= b_num {
        (a_num - b_num) as nat
    } else {
        (b_num - a_num) as nat
    };
    let g = gcd(numerator, denominator);
    checked(
        FractionValue {
            numerator: numerator / g,
            denominator: denominator / g,
            positive: if a.positive == b.positive || a_num >= b_num {
                a.positive
            } else {
                b.positive
            },
            exponents: Seq::empty(),
        },
    )
}

/// The power of `a` to a whole exponent: numerator and denominator are
/// raised to the numerator of `b`. The sign and the constants of `b` have
/// no part in it, and the constants of `a` are kept as they are.
pub open spec fn power(a: FractionValue, b: FractionValue) -> Result<
    FractionValue,
    FractionError,
> {
    if b.denominator != 1 {
        Err(FractionError::UnsupportedRoot)
    } else {
        checked(
            FractionValue {
                numerator: pow(a.numerator as int, b.numerator) as nat,
                denominator: pow(a.denominator as int, b.numerator) as nat,
                positive: a.positive || b.numerator % 2 == 0,
                exponents: a.exponents,
            },
        )
    }
}

/// The exact value of an expression. The first operand that has none
/// decides the error.
pub open spec fn fraction_of(expression: Exp) -> Result<FractionValue, FractionError>
    decreases expression,
{
    match expression {
        Exp::Term(a, b) => match fraction_of(*a) {
            Err(e) => Err(e),
            Ok(x) => match fraction_of(*b) {
                Err(e) => Err(e),
                Ok(y) => sum(x, y),
            },
        },
        Exp::Factor(a, b) => match fraction_of(*a) {
            Err(e) => Err(e),
            Ok(x) => match fraction_of(*b) {
                Err(e) => Err(e),
                Ok(y) => product(x, y),
            },
        },
        Exp::Pow(a, b) => match fraction_of(*a) {
            Err(e) => Err(e),
            Ok(x) => match fraction_of(*b) {
                Err(e) => Err(e),
                Ok(y) => power(x, y),
            },
        },
        Exp::Negative(a) => match fraction_of(*a) {
            Err(e) => Err(e),
            Ok(x) => Ok(negation(x)),
        },
        Exp::Inverse(a) => match fraction_of(*a) {
            Err(e) => Err(e),
            Ok(x) => reciprocal(x),
        },
        Exp::Number(number) => number_value(number),
        Exp::Constant(constant) => Ok(constant_value(constant)),
    }
}

/// `result` is the fraction that holds `value`, or the error that it is.
pub open spec fn holds(
    result: Result<Fraction, FractionError>,
    value: Result<FractionValue, FractionError>,
) -> bool {
    match result {
        Ok(fraction) => value == Ok::<FractionValue, FractionError>(fraction@),
        Err(e) => value == Err::<FractionValue, FractionError>(e),
    }
}

/// The magnitude of `k`.
pub open spec fn magnitude(k: int) -> nat {
    if k < 0 {
        (-k) as nat
    } else {
        k as nat
    }
}

/// A power of a constant as it is written in a fraction: the name, and
/// the magnitude of the exponent behind `^` where it is more than 1.
pub open spec fn power_text(constant: Constant, exponent: int) -> Seq<char> {
    if magnitude(exponent) <= 1 {
        constant_name(constant)
    } else {
        constant_name(constant) + seq!['^'] + decimal_digits(magnitude(exponent))
    }
}

/// The powers of one side of the fraction bar, in the order of the list:
/// those with a negative exponent if `below` is set, else those with a
/// positive one.
pub open spec fn powers_text(powers: Seq<(Constant, int)>, below: bool) -> Seq<char>
    decreases powers.len(),
{
    if powers.len() == 0 {
        Seq::empty()
    } else if (below && powers.last().1 < 0) || (!below && powers.last().1 > 0) {
        powers_text(powers.drop_last(), below) + power_text(powers.last().0, powers.last().1)
    } else {
        powers_text(powers.drop_last(), below)
    }
}

/// The rational part of a fraction as it is written: the sign if it is
/// negative, the numerator, and the denominator behind a bar unless it
/// is 1.
pub open spec fn rational_text(value: FractionValue) -> Seq<char> {
    (if value.positive {
        Seq::<char>::empty()
    } else {
        seq!['-']
    }) + decimal_digits(value.numerator) + (if value.denominator != 1 {
        seq!['/'] + decimal_digits(value.denominator)
    } else {
        Seq::<char>::empty()
    })
}

/// A fraction as it is written: the sign if it is negative; the
/// numerator, unless it is 1 and constants stand for it; the constants
/// above the bar; the bar if anything stands below it; the denominator
/// unless it is 1; the constants below the bar.
pub open spec fn fraction_text(value: FractionValue) -> Seq<char> {
    let above = powers_text(value.exponents, false);
    let below = powers_text(value.exponents, true);
    (if value.positive {
        Seq::<char>::empty()
    } else {
        seq!['-']
    }) + (if above.len() == 0 || value.numerator != 1 {
        decimal_digits(value.numerator)
    } else {
        Seq::<char>::empty()
    }) + above + (if value.denominator != 1 || below.len() > 0 {
        seq!['/']
    } else {
        Seq::<char>::empty()
    }) + (if value.denominator != 1 {
        decimal_digits(value.denominator)
    } else {
        Seq::<char>::empty()
    }) + below
}

/// The fraction is in lowest terms: the reducing divisor of numerator and
/// denominator is 1, and unless the numerator is zero no number but 1
/// divides both.
pub open spec fn in_lowest_terms(value: FractionValue) -> bool {
    &&& gcd(value.numerator, value.denominator) == 1
    &&& value.numerator > 0 ==> coprime(value.numerator, value.denominator)
}

/// The denominator is not zero, and the constants are listed once each,
/// in order, none with the exponent 0.
pub open spec fn is_proper(value: FractionValue) -> bool {
    value.denominator >= 1 && well_formed(value.exponents)
}

/// A product of proper fractions is proper and in lowest terms.
pub proof fn lemma_product_reduced(a: FractionValue, b: FractionValue)
    requires
        is_proper(a),
        is_proper(b),
    ensures
        product(a, b) matches Ok(value) ==> is_proper(value) && in_lowest_terms(value),
{
    assert(a.denominator * b.denominator >= 1) by (nonlinear_arith)
        requires
            a.denominator >= 1,
            b.denominator >= 1,
    ;
    lemma_reduced(a.numerator * b.numerator, a.denominator * b.denominator);
    lemma_merged_well_formed(a.exponents, b.exponents);
}

/// A sum of proper fractions is proper and in lowest terms.
pub proof fn lemma_sum_reduced(a: FractionValue, b: FractionValue)
    requires
        is_proper(a),
        is_proper(b),
    ensures
        sum(a, b) matches Ok(value) ==> is_proper(value) && in_lowest_terms(value),
{
    let g = gcd(a.denominator, b.denominator);
    let a_num = scaled_numerator(a, b);
    let b_num = scaled_numerator(b, a);
    let denominator = a.denominator * b.denominator / g;
    let numerator = if a.positive == b.positive {
        a_num + b_num
    } else if a_num >= b_num {
        (a_num - b_num) as nat
    } else {
        (b_num - a_num) as nat
    };
    lemma_reduced(a.denominator, b.denominator);
    let b1 = b.denominator / g;
    assert(a.denominator * b.denominator == g * (a.denominator * b1)) by (nonlinear_arith)
        requires
            b.denominator == g * b1,
    ;
    assert(a.denominator * b1 >= 1) by (nonlinear_arith)
        requires
            a.denominator >= 1,
            b1 >= 1,
    ;
    vstd::arithmetic::div_mod::lemma_div_multiples_vanish(
        (a.denominator * b1) as int,
        g as int,
    );
    assert((a.denominator * b1) * g == g * (a.denominator * b1)) by (nonlinear_arith);
    assert(denominator == a.denominator * b1);
    lemma_reduced(numerator, denominator);
}

/// The value of every expression is proper, and that of a product or a
/// sum is in lowest terms.
pub proof fn lemma_fraction_of_reduced(expression: Exp)
    ensures
        fraction_of(expression) matches Ok(value) ==> {
            &&& is_proper(value)
            &&& value_fits(value)
            &&& (expression is Factor || expression is Term) ==> in_lowest_terms(value)
        },
    decreases expression,
{
    match expression {
        Exp::Term(a, b) => {
            lemma_fraction_of_reduced(*a);
            lemma_fraction_of_reduced(*b);
            if let Ok(x) = fraction_of(*a) {
                if let Ok(y) = fraction_of(*b) {
                    lemma_sum_reduced(x, y);
                }
            }
        },
        Exp::Factor(a, b) => {
            lemma_fraction_of_reduced(*a);
            lemma_fraction_of_reduced(*b);
            if let Ok(x) = fraction_of(*a) {
                if let Ok(y) = fraction_of(*b) {
                    lemma_product_reduced(x, y);
                }
            }
        },
        Exp::Pow(a, b) => {
            lemma_fraction_of_reduced(*a);
            lemma_fraction_of_reduced(*b);
            if let Ok(x) = fraction_of(*a) {
                if let Ok(y) = fraction_of(*b) {
                    vstd::arithmetic::power::lemma_pow_positive(x.denominator as int, y.numerator);
                }
            }
        },
        Exp::Negative(a) => {
            lemma_fraction_of_reduced(*a);
        },
        Exp::Inverse(a) => {
            lemma_fraction_of_reduced(*a);
            if let Ok(x) = fraction_of(*a) {
                lemma_inverted_well_formed(x.exponents);
            }
        },
        Exp::Number(number) => {
            vstd::arithmetic::power::lemma_pow_positive(10, number.decimals as nat);
        },
        Exp::Constant(constant) => {},
    }
}

/// The product of two numbers of 32 bits fits in 64 bits.
proof fn lemma_product_bound(a: u32, b: u32)
    ensures
        a * b <= 0xffff_fffe_0000_0001,
{
    assert(a * b <= 0xffff_ffff * 0xffff_ffff) by (nonlinear_arith)
        requires
            0 <= a <= 0xffff_ffff,
            0 <= b <= 0xffff_ffff,
    ;
}

/// `base` to the power of `exponent`, where that fits in 32 bits.
pub fn checked_power(base: u32, exponent: u32) -> (raised: Option<u32>)
    ensures
        match raised {
            Some(p) => p == pow(base as int, exponent as nat),
            None => pow(base as int, exponent as nat) > u32::MAX,
        },
{
    if exponent == 0 {
        proof {
            vstd::arithmetic::power::lemma_pow0(base as int);
        }
        return Some(1);
    }
    if base <= 1 {
        proof {
            if base == 0 {
                vstd::arithmetic::power::lemma0_pow(exponent as nat);
            } else {
                vstd::arithmetic::power::lemma1_pow(exponent as nat);
            }
        }
        return Some(base);
    }
    let mut raised: u64 = 1;
    let mut i: u32 = 0;
    proof {
        vstd::arithmetic::power::lemma_pow0(base as int);
    }
    while i < exponent
        invariant
            i <= exponent,
            base >= 2,
            raised == pow(base as int, i as nat),
            raised <= u32::MAX,
        decreases exponent - i,
    {
        proof {
            lemma_product_bound(raised as u32, base);
            reveal(pow);
            assert(pow(base as int, (i + 1) as nat) == base * pow(base as int, i as nat));
            assert(base * pow(base as int, i as nat) == raised * base) by (nonlinear_arith)
                requires
                    raised == pow(base as int, i as nat),
            ;
        }
        raised = raised * base as u64;
        i += 1;
        if raised > 0xffff_ffff {
            proof {
                vstd::arithmetic::power::lemma_pow_increases(
                    base as nat,
                    i as nat,
                    exponent as nat,
                );
            }
            return None;
        }
    }
    Some(raised as u32)
}

/// Appends the powers of one side of the fraction bar to `out`.
fn push_powers(out: &mut Vec<char>, consts: &Vec<(Constant, i32)>, below: bool)
    ensures
        final(out)@ == old(out)@ + powers_text(exponents_of(consts@), below),
{
    let ghost powers = exponents_of(consts@);
    let mut i: usize = 0;
    assert(powers.take(0) == Seq::<(Constant, int)>::empty());
    assert(out@ == old(out)@ + Seq::<char>::empty());
    while i < consts.len()
        invariant
            i <= consts.len(),
            powers == exponents_of(consts@),
            out@ == old(out)@ + powers_text(powers.take(i as int), below),
        decreases consts.len() - i,
    {
        let (constant, count) = consts[i];
        let ghost before = out@;
        let ghost done = powers_text(powers.take(i as int), below);
        proof {
            assert(powers.take(i + 1).drop_last() == powers.take(i as int));
            assert(powers.take(i + 1).last() == (constant, count as int));
        }
        if (below && count < 0) || (!below && count > 0) {
            push_constant(out, constant);
            let size: i64 = if count < 0 {
                -(count as i64)
            } else {
                count as i64
            };
            if size > 1 {
                out.push('^');
                push_decimal(out, size as u32);
            }
            proof {
                let text = power_text(constant, count as int);
                assert(out@ == before + text);
                assert(old(out)@ + done + text == old(out)@ + (done + text));
            }
        }
        i += 1;
    }
    assert(powers.take(i as int) == powers);
}

impl Fraction {
    /// The rational part of the fraction as it is written, its constants
    /// left out.
    pub fn to_str(&self) -> (text: String)
        ensures
            text@ == rational_text(self@),
    {
        let mut out: Vec<char> = Vec::new();
        if !self.positive {
            out.push('-');
        }
        push_decimal(&mut out, self.numerator);
        if self.denominator != 1 {
            out.push('/');
            push_decimal(&mut out, self.denominator);
        }
        assert(out@ == rational_text(self@));
        from_chars(out.as_slice())
    }

    /// The fraction as it is written.
    pub fn to_string(&self) -> (text: String)
        ensures
            text@ == fraction_text(self@),
    {
        let mut above: Vec<char> = Vec::new();
        push_powers(&mut above, &self.consts, false);
        let mut below: Vec<char> = Vec::new();
        push_powers(&mut below, &self.consts, true);
        assert(above@ == powers_text(self@.exponents, false));
        assert(below@ == powers_text(self@.exponents, true));
        let mut out: Vec<char> = Vec::new();
        if !self.positive {
            out.push('-');
        }
        if above.len() == 0 || self.numerator != 1 {
            push_decimal(&mut out, self.numerator);
        }
        append_chars(&mut out, &above);
        if self.denominator != 1 || below.len() > 0 {
            out.push('/');
        }
        if self.denominator != 1 {
            push_decimal(&mut out, self.denominator);
        }
        append_chars(&mut out, &below);
        assert(out@ == fraction_text(self@));
        from_chars(out.as_slice())
    }
}

impl Default for Fraction {
    fn default() -> (zero: Fraction)
        ensures
            zero.numerator == 0,
            zero.denominator == 1,
            zero.positive,
            zero.consts@ == Seq::<(Constant, i32)>::empty(),
    {
        Fraction { numerator: 0, denominator: 1, consts: Vec::new(), positive: true }
    }
}

/// The fraction of a literal.
pub fn fraction_of_number(value: &FPNum) -> (result: Result<Fraction, FractionError>)
    ensures
        holds(result, number_value(*value)),
{
    match checked_power(10, value.decimals) {
        Some(denominator) => {
            let fraction = Fraction {
                numerator: value.digits,
                denominator,
                consts: Vec::new(),
                positive: true,
            };
            assert(exponents_of(fraction.consts@) == Seq::<(Constant, int)>::empty());
            Ok(fraction)
        },
        None => Err(FractionError::Overflow),
    }
}

/// The fraction of a constant.
pub fn fraction_of_constant(constant: Constant) -> (fraction: Fraction)
    ensures
        fraction@ == constant_value(constant),
{
    let mut consts: Vec<(Constant, i32)> = Vec::new();
    consts.push((constant, 1));
    assert(exponents_of(consts@) == seq![(constant, 1int)]);
    Fraction { numerator: 1, denominator: 1, consts, positive: true }
}

/// The negation of a fraction.
pub fn negate(frac: Fraction) -> (negated: Fraction)
    ensures
        negated@ == negation(frac@),
{
    Fraction {
        numerator: frac.numerator,
        denominator: frac.denominator,
        consts: frac.consts,
        positive: !frac.positive,
    }
}

/// The reciprocal of a fraction.
pub fn invert(frac: &Fraction) -> (result: Result<Fraction, FractionError>)
    ensures
        holds(result, reciprocal(frac@)),
{
    if frac.numerator == 0 {
        return Err(FractionError::DivisionByZero);
    }
    match invert_constants(&frac.consts) {
        Some(consts) => Ok(
            Fraction {
                numerator: frac.denominator,
                denominator: frac.numerator,
                consts,
                positive: frac.positive,
            },
        ),
        None => Err(FractionError::Overflow),
    }
}

/// The product of two fractions.
pub fn multiply(a_frac: &Fraction, b_frac: &Fraction) -> (result: Result<Fraction, FractionError>)
    ensures
        holds(result, product(a_frac@, b_frac@)),
{
    proof {
        lemma_product_bound(a_frac.numerator, b_frac.numerator);
        lemma_product_bound(a_frac.denominator, b_frac.denominator);
    }
    let mut numerator: u128 = a_frac.numerator as u128 * b_frac.numerator as u128;
    let mut denominator: u128 = a_frac.denominator as u128 * b_frac.denominator as u128;
    let g = greatest_common_divisor_wide(numerator, denominator);
    numerator = numerator / g;
    denominator = denominator / g;
    if numerator > 0xffff_ffff || denominator > 0xffff_ffff {
        return Err(FractionError::Overflow);
    }
    match merge_constants(&a_frac.consts, &b_frac.consts) {
        Some(consts) => Ok(
            Fraction {
                numerator: numerator as u32,
                denominator: denominator as u32,
                consts,
                positive: a_frac.positive == b_frac.positive,
            },
        ),
        None => Err(FractionError::Overflow),
    }
}

/// The sum of two fractions.
pub fn add_up(a_frac: &Fraction, b_frac: &Fraction) -> (result: Result<Fraction, FractionError>)
    ensures
        holds(result, sum(a_frac@, b_frac@)),
{
    proof {
        lemma_product_bound(a_frac.numerator, b_frac.denominator);
        lemma_product_bound(b_frac.numerator, a_frac.denominator);
        lemma_product_bound(a_frac.denominator, b_frac.denominator);
        crate::discrete::monomial::lemma_gcd_symmetric(
            a_frac.denominator as nat,
            b_frac.denominator as nat,
        );
    }
    let g = greatest_common_divisor(a_frac.denominator, b_frac.denominator) as u128;
    let a_num: u128 = a_frac.numerator as u128 * b_frac.denominator as u128 / g;
    let b_num: u128 = b_frac.numerator as u128 * a_frac.denominator as u128 / g;
    let common: u128 = a_frac.denominator as u128 * b_frac.denominator as u128 / g;
    let adding = a_frac.positive == b_frac.positive;
    let total: u128 = if adding {
        a_num + b_num
    } else if a_num >= b_num {
        a_num - b_num
    } else {
        b_num - a_num
    };
    let positive = if adding || a_num >= b_num {
        a_frac.positive
    } else {
        b_frac.positive
    };
    let r = greatest_common_divisor_wide(total, common);
    let numerator = total / r;
    let denominator = common / r;
    if numerator > 0xffff_ffff || denominator > 0xffff_ffff {
        return Err(FractionError::Overflow);
    }
    let fraction = Fraction {
        numerator: numerator as u32,
        denominator: denominator as u32,
        consts: Vec::new(),
        positive,
    };
    assert(exponents_of(fraction.consts@) == Seq::<(Constant, int)>::empty());
    Ok(fraction)
}

/// A fraction raised to the power of another.
pub fn raise(a_frac: Fraction, b_frac: &Fraction) -> (result: Result<Fraction, FractionError>)
    ensures
        holds(result, power(a_frac@, b_frac@)),
{
    if b_frac.denominator != 1 {
        return Err(FractionError::UnsupportedRoot);
    }
    let numerator = checked_power(a_frac.numerator, b_frac.numerator);
    let denominator = checked_power(a_frac.denominator, b_frac.numerator);
    match (numerator, denominator) {
        (Some(numerator), Some(denominator)) => Ok(
            Fraction {
                numerator,
                denominator,
                consts: a_frac.consts,
                positive: a_frac.positive || b_frac.numerator % 2 == 0,
            },
        ),
        _ => Err(FractionError::Overflow),
    }
}

/// The exact value of `expression`, or why it has none. A value has a
/// denominator that is not zero, and that of a product or a sum is in
/// lowest terms.
pub fn fractinate(expression: &Exp) -> (result: Result<Fraction, FractionError>)
    ensures
        holds(result, fraction_of(*expression)),
        result matches Ok(fraction) ==> {
            &&& is_proper(fraction@)
            &&& (*expression is Factor || *expression is Term) ==> in_lowest_terms(fraction@)
        },
    decreases *expression,
{
    proof {
        lemma_fraction_of_reduced(*expression);
    }
    match expression {
        Exp::Term(a, b) => {
            match fractinate(a) {
                Err(e) => Err(e),
                Ok(a_frac) => match fractinate(b) {
                    Err(e) => Err(e),
                    Ok(b_frac) => add_up(&a_frac, &b_frac),
                },
            }
        },
        Exp::Factor(a, b) => {
            match fractinate(a) {
                Err(e) => Err(e),
                Ok(a_frac) => match fractinate(b) {
                    Err(e) => Err(e),
                    Ok(b_frac) => multiply(&a_frac, &b_frac),
                },
            }
        },
        Exp::Pow(a, b) => {
            match fractinate(a) {
                Err(e) => Err(e),
                Ok(a_frac) => match fractinate(b) {
                    Err(e) => Err(e),
                    Ok(b_frac) => raise(a_frac, &b_frac),
                },
            }
        },
        Exp::Negative(a) => {
            match fractinate(a) {
                Err(e) => Err(e),
                Ok(frac) => Ok(negate(frac)),
            }
        },
        Exp::Inverse(a) => {
            match fractinate(a) {
                Err(e) => Err(e),
                Ok(frac) => invert(&frac),
            }
        },
        Exp::Number(value) => fraction_of_number(value),
        Exp::Constant(constant) => Ok(fraction_of_constant(*constant)),
    }
}

} // verus!
