//! Greatest common divisors by the Euclidean algorithm.

use vstd::prelude::*;

verus! {

/// `d` is a positive divisor of `n`.
pub open spec fn divides(d: nat, n: nat) -> bool {
    d > 0 && n % d == 0
}

/// `d` divides both `a` and `b`.
pub open spec fn is_common_divisor(d: nat, a: nat, b: nat) -> bool {
    divides(d, a) && divides(d, b)
}

/// `g` is a common divisor of `a` and `b` that every other common divisor divides.
pub open spec fn is_greatest_common_divisor(g: nat, a: nat, b: nat) -> bool {
    &&& is_common_divisor(g, a, b)
    &&& forall|d: nat| #[trigger] is_common_divisor(d, a, b) ==> divides(d, g) && d <= g
}

/// The value the Euclidean algorithm reaches from `(a, b)`.
pub open spec fn euclid(a: nat, b: nat) -> nat
    decreases b,
{
    if b == 0 {
        a
    } else {
        euclid(b, a % b)
    }
}

/// The divisor used to reduce fractions: the greatest common divisor of two
/// positive numbers, and 1 as soon as one of them is zero, so that dividing
/// by it is always possible.
pub open spec fn gcd(a: nat, b: nat) -> nat {
    if a == 0 || b == 0 {
        1
    } else {
        euclid(a, b)
    }
}

/// A divisor of `a` and `b` divides `a % b`, and a divisor of `b` and
/// `a % b` divides `a`.
pub proof fn lemma_common_divisor_step(d: nat, a: nat, b: nat)
    requires
        d > 0,
        b > 0,
    ensures
        is_common_divisor(d, a, b) <==> is_common_divisor(d, b, a % b),
{
    let q = a / b;
    let r = a % b;
    assert(a == q * b + r) by {
        vstd::arithmetic::div_mod::lemma_fundamental_div_mod(a as int, b as int);
        assert(b * q == q * b) by (nonlinear_arith);
    }
    if divides(d, b) {
        let k = b / d;
        assert(b == k * d) by {
            vstd::arithmetic::div_mod::lemma_fundamental_div_mod(b as int, d as int);
            assert(d * k == k * d) by (nonlinear_arith);
        }
        assert(q * b == (q * k) * d) by (nonlinear_arith)
            requires
                b == k * d,
        ;
        vstd::arithmetic::div_mod::lemma_mod_multiples_basic((q * k) as int, d as int);
        assert((q * b) % d == 0);
        if divides(d, a) {
            // r = a - q * b
            vstd::arithmetic::div_mod::lemma_mod_multiples_vanish(
                -((q * k) as int),
                a as int,
                d as int,
            );
            assert(d * (-((q * k) as int)) + a == r) by (nonlinear_arith)
                requires
                    a == q * b + r,
                    q * b == (q * k) * d,
            ;
            assert(r % d == 0);
        }
        if divides(d, r) {
            vstd::arithmetic::div_mod::lemma_mod_multiples_vanish(
                (q * k) as int,
                r as int,
                d as int,
            );
            assert(d * ((q * k) as int) + r == a) by (nonlinear_arith)
                requires
                    a == q * b + r,
                    q * b == (q * k) * d,
            ;
            assert(a % d == 0);
        }
    }
}

/// A divisor of a positive number is no greater than the number.
pub proof fn lemma_divisor_le(d: nat, n: nat)
    requires
        divides(d, n),
        n > 0,
    ensures
        d <= n,
{
    if d > n {
        vstd::arithmetic::div_mod::lemma_small_mod(n, d);
    }
}

/// The Euclidean algorithm yields the greatest common divisor.
pub proof fn lemma_euclid_is_greatest(a: nat, b: nat)
    requires
        a > 0 || b > 0,
    ensures
        euclid(a, b) > 0,
        is_greatest_common_divisor(euclid(a, b), a, b),
    decreases b,
{
    if b == 0 {
        assert(a % a == 0) by {
            vstd::arithmetic::div_mod::lemma_mod_self_0(a as int);
        }
        assert(0nat % a == 0);
        assert forall|d: nat| #[trigger] is_common_divisor(d, a, b) implies divides(d, a) && d
            <= a by {
            if d > a {
                vstd::arithmetic::div_mod::lemma_small_mod(a, d);
            }
        }
    } else {
        lemma_euclid_is_greatest(b, a % b);
        let g = euclid(a, b);
        lemma_common_divisor_step(g, a, b);
        assert forall|d: nat| #[trigger] is_common_divisor(d, a, b) implies divides(d, g) && d
            <= g by {
            lemma_common_divisor_step(d, a, b);
            assert(is_common_divisor(d, b, a % b));
        }
    }
}

/// No number greater than 1 divides both `a` and `b`.
pub open spec fn coprime(a: nat, b: nat) -> bool {
    forall|d: nat| d > 1 ==> !#[trigger] is_common_divisor(d, a, b)
}

/// A number that has the divisor `d` is `d` times its quotient by `d`.
pub proof fn lemma_divides_quotient(d: nat, n: nat)
    requires
        divides(d, n),
    ensures
        n == d * (n / d),
{
    vstd::arithmetic::div_mod::lemma_fundamental_div_mod(n as int, d as int);
}

/// A multiple of `d` has the divisor `d`.
pub proof fn lemma_multiple_divides(d: nat, k: nat)
    requires
        d > 0,
    ensures
        divides(d, d * k),
{
    vstd::arithmetic::div_mod::lemma_mod_multiples_basic(k as int, d as int);
    assert(k * d == d * k) by (nonlinear_arith);
}

/// Dividing a fraction by its reducing divisor leaves it in lowest terms:
/// the divisor of what is left is 1, the denominator stays positive, and
/// where the numerator is not zero, no number but 1 divides both.
pub proof fn lemma_reduced(n: nat, d: nat)
    requires
        d >= 1,
    ensures
        gcd(n, d) >= 1,
        d / gcd(n, d) >= 1,
        gcd(n / gcd(n, d), d / gcd(n, d)) == 1,
        n > 0 ==> coprime(n / gcd(n, d), d / gcd(n, d)),
        n == gcd(n, d) * (n / gcd(n, d)),
        d == gcd(n, d) * (d / gcd(n, d)),
{
    let g = gcd(n, d);
    if n == 0 {
        assert(g == 1);
    } else {
        lemma_euclid_is_greatest(n, d);
        lemma_divisor_le(g, n);
        lemma_divisor_le(g, d);
        lemma_divides_quotient(g, n);
        lemma_divides_quotient(g, d);
        let n1 = n / g;
        let d1 = d / g;
        assert(n1 >= 1 && d1 >= 1) by (nonlinear_arith)
            requires
                n == g * n1,
                d == g * d1,
                n >= 1,
                d >= 1,
                g >= 1,
        ;
        assert forall|h: nat| h > 1 implies !#[trigger] is_common_divisor(h, n1, d1) by {
            if is_common_divisor(h, n1, d1) {
                lemma_divides_quotient(h, n1);
                lemma_divides_quotient(h, d1);
                let kn = n1 / h;
                let kd = d1 / h;
                assert(n == (g * h) * kn) by (nonlinear_arith)
                    requires
                        n == g * n1,
                        n1 == h * kn,
                ;
                assert(d == (g * h) * kd) by (nonlinear_arith)
                    requires
                        d == g * d1,
                        d1 == h * kd,
                ;
                assert(g * h > g) by (nonlinear_arith)
                    requires
                        g >= 1,
                        h > 1,
                ;
                lemma_multiple_divides(g * h, kn);
                lemma_multiple_divides(g * h, kd);
                assert(is_common_divisor(g * h, n, d));
                assert(false);
            }
        }
        lemma_euclid_is_greatest(n1, d1);
        let h = euclid(n1, d1);
        assert(is_common_divisor(h, n1, d1));
        assert(h == 1);
    }
}

/// The algorithm may take its operands in either order.
pub proof fn lemma_euclid_symmetric(a: nat, b: nat)
    ensures
        euclid(a, b) == euclid(b, a),
{
    if a == 0 || b == 0 {
        assert(euclid(a, 0) == a);
        assert(euclid(0, b) == b) by {
            if b > 0 {
                assert(0nat % b == 0);
                assert(euclid(0, b) == euclid(b, 0));
            }
        }
    } else if a < b {
        vstd::arithmetic::div_mod::lemma_small_mod(a, b);
        assert(euclid(a, b) == euclid(b, a % b));
    } else if b < a {
        vstd::arithmetic::div_mod::lemma_small_mod(b, a);
        assert(euclid(b, a) == euclid(a, b % a));
    }
}

/// The reducing divisor does not depend on the order of the operands.
pub proof fn lemma_gcd_symmetric(a: nat, b: nat)
    ensures
        gcd(a, b) == gcd(b, a),
{
    lemma_euclid_symmetric(a, b);
}

/// The greatest common divisor of `input1` and `input2`, or 1 where one of
/// them is zero, on operands of 128 bits.
pub fn greatest_common_divisor_wide(input1: u128, input2: u128) -> (g: u128)
    ensures
        g == gcd(input1 as nat, input2 as nat),
        g >= 1,
        input1 > 0 ==> g <= input1,
        input2 > 0 ==> g <= input2,
        input1 == 0 || input2 == 0 ==> g == 1,
        input1 > 0 && input2 > 0 ==> is_greatest_common_divisor(
            g as nat,
            input1 as nat,
            input2 as nat,
        ),
{
    // The greater operand comes first.
    let (mut a, mut b): (u128, u128) = if input1 > input2 {
        (input1, input2)
    } else {
        (input2, input1)
    };
    if b == 0 {
        return 1;
    }
    proof {
        lemma_euclid_is_greatest(input1 as nat, input2 as nat);
        lemma_euclid_symmetric(input1 as nat, input2 as nat);
        assert(divides(euclid(input1 as nat, input2 as nat), input1 as nat));
        lemma_divisor_le(euclid(input1 as nat, input2 as nat), input1 as nat);
        lemma_divisor_le(euclid(input1 as nat, input2 as nat), input2 as nat);
    }
    loop
        invariant
            b > 0,
            euclid(a as nat, b as nat) == euclid(input1 as nat, input2 as nat),
            input1 > 0 && input2 > 0,
            0 < euclid(input1 as nat, input2 as nat) <= input1,
            euclid(input1 as nat, input2 as nat) <= input2,
            is_greatest_common_divisor(
                euclid(input1 as nat, input2 as nat),
                input1 as nat,
                input2 as nat,
            ),
        decreases b,
    {
        let m: u128 = a % b;
        if m == 0 {
            assert(euclid(a as nat, b as nat) == euclid(b as nat, 0));
            return b;
        }
        a = b;
        b = m;
    }
}

/// The greatest common divisor of `input1` and `input2`, or 1 where one of
/// them is zero.
pub fn greatest_common_divisor(input1: u32, input2: u32) -> (g: u32)
    ensures
        g == gcd(input1 as nat, input2 as nat),
        g >= 1,
        input1 == 0 || input2 == 0 ==> g == 1,
        input1 > 0 && input2 > 0 ==> is_greatest_common_divisor(
            g as nat,
            input1 as nat,
            input2 as nat,
        ),
{
    let g = greatest_common_divisor_wide(input1 as u128, input2 as u128);
    g as u32
}

} // verus!
