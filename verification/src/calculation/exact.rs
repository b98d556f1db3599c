//! The exact evaluator against rational arithmetic: where an expression
//! has a rational value, the fraction that the evaluator gives is that
//! value.

use vstd::prelude::*;
use vstd::arithmetic::power::pow;
use crate::calculation::fractinator::{
    fraction_of,
    lemma_fraction_of_reduced,
    power,
    product,
    reciprocal,
    scaled_numerator,
    sum,
    FractionValue,
};
use crate::discrete::monomial::{gcd, lemma_reduced};
use crate::symbols::exp::Exp;

verus! {

/// The numerator of a fraction with the sign of the fraction.
pub open spec fn signed_numerator(value: FractionValue) -> int {
    if value.positive {
        value.numerator as int
    } else {
        -(value.numerator as int)
    }
}

/// The rational number that an expression stands for, as a numerator
/// over a positive denominator. Constants, the reciprocal of zero and
/// powers whose exponent is no natural number have none.
pub open spec fn rational_of(expression: Exp) -> Option<(int, int)>
    decreases expression,
{
    match expression {
        Exp::Term(a, b) => match (rational_of(*a), rational_of(*b)) {
            (Some(x), Some(y)) => Some((x.0 * y.1 + y.0 * x.1, x.1 * y.1)),
            _ => None,
        },
        Exp::Factor(a, b) => match (rational_of(*a), rational_of(*b)) {
            (Some(x), Some(y)) => Some((x.0 * y.0, x.1 * y.1)),
            _ => None,
        },
        Exp::Pow(a, b) => match (rational_of(*a), rational_of(*b)) {
            (Some(x), Some(y)) => if y.0 >= 0 && y.1 > 0 && y.0 % y.1 == 0 {
                Some((pow(x.0, (y.0 / y.1) as nat), pow(x.1, (y.0 / y.1) as nat)))
            } else {
                None
            },
            _ => None,
        },
        Exp::Negative(a) => match rational_of(*a) {
            Some(x) => Some((-x.0, x.1)),
            None => None,
        },
        Exp::Inverse(a) => match rational_of(*a) {
            Some(x) => if x.0 > 0 {
                Some((x.1, x.0))
            } else if x.0 < 0 {
                Some((-x.1, -x.0))
            } else {
                None
            },
            None => None,
        },
        Exp::Number(number) => Some((number.digits as int, pow(10, number.decimals as nat))),
        Exp::Constant(constant) => None,
    }
}

/// The fraction `value` is the rational number `ratio`.
pub open spec fn is_ratio(value: FractionValue, ratio: (int, int)) -> bool {
    &&& value.denominator > 0
    &&& ratio.1 > 0
    &&& signed_numerator(value) * ratio.1 == ratio.0 * value.denominator
}

/// What is equal after multiplication by a positive number is equal.
proof fn lemma_cancel(x: int, y: int, k: int)
    by (nonlinear_arith)
    requires
        k > 0,
        x * k == y * k,
    ensures
        x == y,
{
}

/// Two products multiplied: the factors may be paired anew.
proof fn lemma_interchange(p: int, q: int, u: int, v: int)
    by (nonlinear_arith)
    ensures
        (p * q) * (u * v) == (p * u) * (q * v),
        (p * q) * (u * v) == (p * v) * (q * u),
{
}

/// Three factors may be multiplied in any order.
proof fn lemma_reorder(p: int, q: int, r: int)
    by (nonlinear_arith)
    ensures
        (p * q) * r == (p * r) * q,
        (p * q) * r == p * (q * r),
        p * q == q * p,
{
}

/// A sum is multiplied term by term.
proof fn lemma_distribute(p: int, q: int, r: int)
    by (nonlinear_arith)
    ensures
        (p + q) * r == p * r + q * r,
{
}

/// The sign of a product of two numbers, one of them positive.
proof fn lemma_sign(x: int, p: int, y: int, q: int)
    by (nonlinear_arith)
    requires
        p > 0,
        q > 0,
        x * p == y * q,
    ensures
        x > 0 <==> y > 0,
        x < 0 <==> y < 0,
{
}

/// The power of a negated number: the power itself where the exponent is
/// even, and the negated power where it is odd.
proof fn lemma_pow_of_negated(x: int, k: nat)
    ensures
        pow(-x, k) == if k % 2 == 0 {
            pow(x, k)
        } else {
            -pow(x, k)
        },
    decreases k,
{
    reveal(pow);
    if k > 0 {
        lemma_pow_of_negated(x, (k - 1) as nat);
        let p = pow(x, (k - 1) as nat);
        assert((-x) * p == -(x * p)) by (nonlinear_arith);
        assert((-x) * (-p) == x * p) by (nonlinear_arith);
    }
}

/// The product of two fractions is the product of their rational values.
pub proof fn lemma_product_exact(a: FractionValue, b: FractionValue, x: (int, int), y: (int, int))
    requires
        is_ratio(a, x),
        is_ratio(b, y),
        product(a, b) is Ok,
    ensures
        is_ratio(product(a, b)->Ok_0, (x.0 * y.0, x.1 * y.1)),
{
    let v = product(a, b)->Ok_0;
    let n = a.numerator * b.numerator;
    let d = a.denominator * b.denominator;
    let r = gcd(n, d);
    assert(d >= 1) by (nonlinear_arith)
        requires
            d == a.denominator * b.denominator,
            a.denominator >= 1,
            b.denominator >= 1,
    ;
    lemma_reduced(n, d);
    let sa = signed_numerator(a);
    let sb = signed_numerator(b);
    let sv = signed_numerator(v);
    assert(sv * r == sa * sb) by (nonlinear_arith)
        requires
            n == r * v.numerator,
            n == a.numerator * b.numerator,
            sv == if a.positive == b.positive {
                v.numerator as int
            } else {
                -(v.numerator as int)
            },
            sa == if a.positive {
                a.numerator as int
            } else {
                -(a.numerator as int)
            },
            sb == if b.positive {
                b.numerator as int
            } else {
                -(b.numerator as int)
            },
    ;
    assert(x.1 * y.1 > 0) by (nonlinear_arith)
        requires
            x.1 > 0,
            y.1 > 0,
    ;
    let ad = a.denominator as int;
    let bd = b.denominator as int;
    let vd = v.denominator as int;
    let ri = r as int;
    assert((sv * (x.1 * y.1)) * ri == ((x.0 * y.0) * vd) * ri) by {
        lemma_reorder(sv, x.1 * y.1, ri);
        assert((sv * (x.1 * y.1)) * ri == (sa * sb) * (x.1 * y.1));
        lemma_interchange(sa, sb, x.1, y.1);
        assert((sa * sb) * (x.1 * y.1) == (x.0 * ad) * (y.0 * bd));
        lemma_interchange(x.0, ad, y.0, bd);
        assert((x.0 * ad) * (y.0 * bd) == (x.0 * y.0) * (ad * bd));
        lemma_reorder(x.0 * y.0, vd, ri);
        lemma_reorder(vd, ri, 1);
        assert(ad * bd == ri * vd);
        assert((x.0 * y.0) * (ad * bd) == ((x.0 * y.0) * vd) * ri);
    }
    lemma_cancel(sv * (x.1 * y.1), (x.0 * y.0) * v.denominator, r as int);
}

/// The sum of two fractions is the sum of their rational values.
pub proof fn lemma_sum_exact(a: FractionValue, b: FractionValue, x: (int, int), y: (int, int))
    requires
        is_ratio(a, x),
        is_ratio(b, y),
        sum(a, b) is Ok,
    ensures
        is_ratio(sum(a, b)->Ok_0, (x.0 * y.1 + y.0 * x.1, x.1 * y.1)),
{
    let v = sum(a, b)->Ok_0;
    let g = gcd(a.denominator, b.denominator);
    lemma_reduced(a.denominator, b.denominator);
    crate::discrete::monomial::lemma_gcd_symmetric(a.denominator, b.denominator);
    let a1 = a.denominator / g;
    let b1 = b.denominator / g;
    let a_num = scaled_numerator(a, b);
    let b_num = scaled_numerator(b, a);
    assert(a_num == a.numerator * b1) by {
        assert(a.numerator * b.denominator == g * (a.numerator * b1)) by (nonlinear_arith)
            requires
                b.denominator == g * b1,
        ;
        vstd::arithmetic::div_mod::lemma_div_multiples_vanish(
            (a.numerator * b1) as int,
            g as int,
        );
        assert((a.numerator * b1) * g == g * (a.numerator * b1)) by (nonlinear_arith);
    }
    assert(b_num == b.numerator * a1) by {
        assert(b.numerator * a.denominator == g * (b.numerator * a1)) by (nonlinear_arith)
            requires
                a.denominator == g * a1,
        ;
        vstd::arithmetic::div_mod::lemma_div_multiples_vanish(
            (b.numerator * a1) as int,
            g as int,
        );
        assert((b.numerator * a1) * g == g * (b.numerator * a1)) by (nonlinear_arith);
    }
    let d = a.denominator * b.denominator / g;
    assert(d == a.denominator * b1) by {
        assert(a.denominator * b.denominator == g * (a.denominator * b1)) by (nonlinear_arith)
            requires
                b.denominator == g * b1,
        ;
        vstd::arithmetic::div_mod::lemma_div_multiples_vanish(
            (a.denominator * b1) as int,
            g as int,
        );
        assert((a.denominator * b1) * g == g * (a.denominator * b1)) by (nonlinear_arith);
    }
    assert(d >= 1) by (nonlinear_arith)
        requires
            d == a.denominator * b1,
            a.denominator >= 1,
            b1 >= 1,
    ;
    let n = if a.positive == b.positive {
        a_num + b_num
    } else if a_num >= b_num {
        (a_num - b_num) as nat
    } else {
        (b_num - a_num) as nat
    };
    let r = gcd(n, d);
    lemma_reduced(n, d);
    let sa = signed_numerator(a);
    let sb = signed_numerator(b);
    let sv = signed_numerator(v);
    // the signed numerator before the reduction
    let total = sa * b1 + sb * a1;
    assert(sa * b1 == if a.positive {
        a_num as int
    } else {
        -(a_num as int)
    }) by (nonlinear_arith)
        requires
            a_num == a.numerator * b1,
            sa == if a.positive {
                a.numerator as int
            } else {
                -(a.numerator as int)
            },
    ;
    assert(sb * a1 == if b.positive {
        b_num as int
    } else {
        -(b_num as int)
    }) by (nonlinear_arith)
        requires
            b_num == b.numerator * a1,
            sb == if b.positive {
                b.numerator as int
            } else {
                -(b.numerator as int)
            },
    ;
    assert(total == if v.positive {
        n as int
    } else {
        -(n as int)
    });
    assert(sv * r == total) by (nonlinear_arith)
        requires
            n == r * v.numerator,
            total == if v.positive {
                n as int
            } else {
                -(n as int)
            },
            sv == if v.positive {
                v.numerator as int
            } else {
                -(v.numerator as int)
            },
    ;
    assert(x.1 * y.1 > 0) by (nonlinear_arith)
        requires
            x.1 > 0,
            y.1 > 0,
    ;
    let ad = a.denominator as int;
    let bd = b.denominator as int;
    let vd = v.denominator as int;
    let ri = r as int;
    let gi = g as int;
    let a1i = a1 as int;
    let b1i = b1 as int;
    let both = x.1 * y.1;
    let left = sv * both;
    let ratio = x.0 * y.1 + y.0 * x.1;
    let right = ratio * vd;
    assert(bd == b1i * gi && ad == a1i * gi) by {
        lemma_reorder(gi, b1i, 1);
        lemma_reorder(gi, a1i, 1);
    }
    // the left side, multiplied by both divisors
    assert((left * ri) * gi == (sa * bd + sb * ad) * both) by {
        lemma_reorder(sv, both, ri);
        assert(left * ri == total * both);
        lemma_reorder(total, both, gi);
        assert((left * ri) * gi == (total * gi) * both);
        lemma_distribute(sa * b1i, sb * a1i, gi);
        lemma_reorder(sa, b1i, gi);
        lemma_reorder(sb, a1i, gi);
        assert(total * gi == sa * bd + sb * ad);
    }
    assert((sa * bd + sb * ad) * both == ratio * (ad * bd)) by {
        lemma_distribute(sa * bd, sb * ad, both);
        lemma_interchange(sa, bd, x.1, y.1);
        assert((sa * bd) * both == (x.0 * ad) * (bd * y.1));
        lemma_interchange(sb, ad, x.1, y.1);
        assert((sb * ad) * both == (y.0 * bd) * (ad * x.1));
        lemma_distribute(x.0 * y.1, y.0 * x.1, ad * bd);
        lemma_interchange(x.0, y.1, ad, bd);
        lemma_reorder(y.1, bd, 1);
        assert((x.0 * y.1) * (ad * bd) == (x.0 * ad) * (bd * y.1));
        lemma_interchange(y.0, x.1, ad, bd);
        lemma_reorder(x.1, ad, 1);
        assert((y.0 * x.1) * (ad * bd) == (y.0 * bd) * (ad * x.1));
    }
    // the right side, multiplied by both divisors
    assert((right * ri) * gi == ratio * (ad * bd)) by {
        lemma_reorder(ratio, vd, ri);
        lemma_reorder(vd, ri, 1);
        let di = d as int;
        assert(right * ri == ratio * di);
        lemma_reorder(ratio, di, gi);
        lemma_reorder(ad, b1i, gi);
        assert(di * gi == ad * bd);
    }
    assert(left * (ri * gi) == right * (ri * gi)) by {
        lemma_reorder(left, ri, gi);
        lemma_reorder(right, ri, gi);
    }
    assert(r * g > 0) by (nonlinear_arith)
        requires
            r >= 1,
            g >= 1,
    ;
    lemma_cancel(left, right, ri * gi);
}

/// The power of a fraction to a natural number is the power of its
/// rational value.
pub proof fn lemma_power_exact(a: FractionValue, b: FractionValue, x: (int, int), y: (int, int))
    requires
        is_ratio(a, x),
        is_ratio(b, y),
        power(a, b) is Ok,
        y.0 >= 0,
        y.0 % y.1 == 0,
    ensures
        is_ratio(
            power(a, b)->Ok_0,
            (pow(x.0, (y.0 / y.1) as nat), pow(x.1, (y.0 / y.1) as nat)),
        ),
{
    let v = power(a, b)->Ok_0;
    let k = b.numerator;
    let sb = signed_numerator(b);
    assert(sb * y.1 == y.0);
    lemma_sign(sb, y.1, y.0, 1);
    assert(sb >= 0);
    assert(sb == k);
    assert(y.0 / y.1 == k) by {
        vstd::arithmetic::div_mod::lemma_div_multiples_vanish(k as int, y.1);
        assert(k * y.1 == y.1 * k) by (nonlinear_arith);
    }
    let sa = signed_numerator(a);
    let sv = signed_numerator(v);
    vstd::arithmetic::power::lemma_pow_positive(a.denominator as int, k);
    vstd::arithmetic::power::lemma_pow_positive(x.1, k);
    assert(pow(a.numerator as int, k) >= 0) by {
        if a.numerator > 0 {
            vstd::arithmetic::power::lemma_pow_positive(a.numerator as int, k);
        } else if k > 0 {
            vstd::arithmetic::power::lemma0_pow(k);
        } else {
            vstd::arithmetic::power::lemma_pow0(0);
        }
    }
    assert(sv == pow(sa, k)) by {
        if !a.positive {
            lemma_pow_of_negated(a.numerator as int, k);
        }
    }
    vstd::arithmetic::power::lemma_pow_distributes(sa, x.1, k);
    vstd::arithmetic::power::lemma_pow_distributes(x.0, a.denominator as int, k);
}

/// The reciprocal of a fraction is the reciprocal of its rational value.
pub proof fn lemma_reciprocal_exact(a: FractionValue, x: (int, int))
    requires
        is_ratio(a, x),
        reciprocal(a) is Ok,
    ensures
        x.0 != 0,
        is_ratio(
            reciprocal(a)->Ok_0,
            if x.0 > 0 {
                (x.1, x.0)
            } else {
                (-x.1, -x.0)
            },
        ),
{
    let sa = signed_numerator(a);
    lemma_sign(sa, x.1, x.0, a.denominator as int);
    let v = reciprocal(a)->Ok_0;
    let sv = signed_numerator(v);
    if x.0 > 0 {
        assert(sv * x.0 == x.1 * v.denominator) by (nonlinear_arith)
            requires
                sa * x.1 == x.0 * a.denominator,
                sv == a.denominator,
                v.denominator == sa,
        ;
    } else {
        assert(sv * (-x.0) == (-x.1) * v.denominator) by (nonlinear_arith)
            requires
                sa * x.1 == x.0 * a.denominator,
                sv == -(a.denominator as int),
                v.denominator == -sa,
        ;
    }
}

/// Where an expression has both an exact value and a rational value, the
/// two are the same number, and the exact value holds no constants.
pub proof fn lemma_fraction_is_exact(expression: Exp)
    requires
        fraction_of(expression) is Ok,
        rational_of(expression) is Some,
    ensures
        is_ratio(fraction_of(expression)->Ok_0, rational_of(expression)->Some_0),
    decreases expression,
{
    lemma_fraction_of_reduced(expression);
    match expression {
        Exp::Term(a, b) => {
            lemma_fraction_is_exact(*a);
            lemma_fraction_is_exact(*b);
            lemma_sum_exact(
                fraction_of(*a)->Ok_0,
                fraction_of(*b)->Ok_0,
                rational_of(*a)->Some_0,
                rational_of(*b)->Some_0,
            );
        },
        Exp::Factor(a, b) => {
            lemma_fraction_is_exact(*a);
            lemma_fraction_is_exact(*b);
            lemma_product_exact(
                fraction_of(*a)->Ok_0,
                fraction_of(*b)->Ok_0,
                rational_of(*a)->Some_0,
                rational_of(*b)->Some_0,
            );
        },
        Exp::Pow(a, b) => {
            lemma_fraction_is_exact(*a);
            lemma_fraction_is_exact(*b);
            lemma_power_exact(
                fraction_of(*a)->Ok_0,
                fraction_of(*b)->Ok_0,
                rational_of(*a)->Some_0,
                rational_of(*b)->Some_0,
            );
        },
        Exp::Negative(a) => {
            lemma_fraction_is_exact(*a);
            let v = fraction_of(*a)->Ok_0;
            let x = rational_of(*a)->Some_0;
            assert((-signed_numerator(v)) * x.1 == (-x.0) * v.denominator) by (nonlinear_arith)
                requires
                    signed_numerator(v) * x.1 == x.0 * v.denominator,
            ;
        },
        Exp::Inverse(a) => {
            lemma_fraction_is_exact(*a);
            lemma_reciprocal_exact(fraction_of(*a)->Ok_0, rational_of(*a)->Some_0);
        },
        Exp::Number(number) => {
            vstd::arithmetic::power::lemma_pow_positive(10, number.decimals as nat);
        },
        Exp::Constant(constant) => {},
    }
}

} // verus!
