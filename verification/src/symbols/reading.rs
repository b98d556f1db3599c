//! Reading back what was written: the decimal notation of a literal is
//! itself a literal, of the same value.

use vstd::prelude::*;
use vstd::arithmetic::power::pow;
use crate::symbols::fpnum::{
    all_digits,
    decimal_digits,
    decimal_text,
    digit_char,
    digit_value,
    fraction_digits,
    integer_digits,
    is_digit,
    last_index_of,
    literal,
    number_value,
    split_literal,
    strip_trailing_zeros,
    zeros,
    FPNum,
};

verus! {

/// A digit string with one more digit writes ten times the number, plus
/// the digit.
pub proof fn lemma_number_value_push(s: Seq<char>, c: char)
    ensures
        number_value(s.push(c)) == number_value(s) * 10 + digit_value(c),
{
    assert(s.push(c).drop_last() == s);
    assert(s.push(c).last() == c);
}

/// The digits of a number write that number.
pub proof fn lemma_decimal_digits(n: nat)
    ensures
        decimal_digits(n).len() >= 1,
        all_digits(decimal_digits(n)),
        number_value(decimal_digits(n)) == n,
    decreases n,
{
    let last = digit_char(n % 10);
    assert(is_digit(last) && digit_value(last) == n % 10);
    if n < 10 {
        assert(decimal_digits(n) == Seq::<char>::empty().push(last));
        lemma_number_value_push(Seq::<char>::empty(), last);
        assert(number_value(Seq::<char>::empty()) == 0);
    } else {
        lemma_decimal_digits(n / 10);
        lemma_number_value_push(decimal_digits(n / 10), last);
    }
}

/// Zeros in front of a digit string leave the number as it is.
pub proof fn lemma_leading_zeros(m: nat, s: Seq<char>)
    ensures
        number_value(zeros(m) + s) == number_value(s),
    decreases s.len(), m,
{
    if s.len() == 0 {
        assert(zeros(m) + s == zeros(m));
        if m > 0 {
            assert(zeros(m).drop_last() == zeros((m - 1) as nat));
            lemma_leading_zeros((m - 1) as nat, s);
            assert(zeros((m - 1) as nat) + s == zeros((m - 1) as nat));
        }
    } else {
        assert((zeros(m) + s).drop_last() == zeros(m) + s.drop_last());
        lemma_leading_zeros(m, s.drop_last());
    }
}

/// Zeros behind a digit string multiply the number by the power of ten
/// of their count.
pub proof fn lemma_trailing_zeros(s: Seq<char>, z: nat)
    ensures
        number_value(s + zeros(z)) == number_value(s) * pow(10, z),
    decreases z,
{
    reveal(pow);
    if z == 0 {
        assert(s + zeros(0) == s);
    } else {
        let shorter = s + zeros((z - 1) as nat);
        assert(s + zeros(z) == shorter.push('0'));
        lemma_number_value_push(shorter, '0');
        lemma_trailing_zeros(s, (z - 1) as nat);
        assert(number_value(s) * pow(10, (z - 1) as nat) * 10 == number_value(s) * (10 * pow(
            10,
            (z - 1) as nat,
        ))) by (nonlinear_arith);
    }
}

/// A text is what is left of it without its trailing zeros, followed by
/// those zeros.
pub proof fn lemma_strip_trailing_zeros(s: Seq<char>)
    ensures
        strip_trailing_zeros(s).len() <= s.len(),
        s == strip_trailing_zeros(s) + zeros((s.len() - strip_trailing_zeros(s).len()) as nat),
    decreases s.len(),
{
    if s.len() > 0 && s.last() == '0' {
        lemma_strip_trailing_zeros(s.drop_last());
        let kept = strip_trailing_zeros(s);
        let z = (s.len() - kept.len()) as nat;
        assert(s =~= kept + zeros(z)) by {
            assert(s.drop_last() == kept + zeros((z - 1) as nat));
            assert forall|i: int| 0 <= i < s.len() implies s[i] == (kept + zeros(z))[i] by {
                if i < s.len() - 1 {
                    assert(s[i] == s.drop_last()[i]);
                }
            }
        }
    } else {
        assert(s =~= s + zeros(0));
    }
}

/// A text of digits holds neither separator.
pub proof fn lemma_digits_hold_no_separator(s: Seq<char>)
    requires
        all_digits(s),
    ensures
        last_index_of(s, '.') is None,
        last_index_of(s, ',') is None,
    decreases s.len(),
{
    if s.len() > 0 {
        assert(is_digit(s[s.len() - 1]));
        assert forall|i: int| 0 <= i < s.drop_last().len() implies is_digit(
            #[trigger] s.drop_last()[i],
        ) by {
            assert(s.drop_last()[i] == s[i]);
        }
        lemma_digits_hold_no_separator(s.drop_last());
    }
}

/// The last point of a text is the one that only digits follow.
pub proof fn lemma_last_point(a: Seq<char>, b: Seq<char>)
    requires
        all_digits(b),
    ensures
        last_index_of(a + seq!['.'] + b, '.') == Some(a.len() as int),
    decreases b.len(),
{
    let s = a + seq!['.'] + b;
    if b.len() == 0 {
        assert(s.last() == '.');
    } else {
        assert(s.last() == b.last());
        assert(is_digit(b[b.len() - 1]));
        assert(s.drop_last() == a + seq!['.'] + b.drop_last());
        assert forall|i: int| 0 <= i < b.drop_last().len() implies is_digit(
            #[trigger] b.drop_last()[i],
        ) by {
            assert(b.drop_last()[i] == b[i]);
        }
        lemma_last_point(a, b.drop_last());
    }
}

/// The digits before and behind the point, taken together, write the
/// digits of the literal.
pub proof fn lemma_digits_around_point(digits: nat, decimals: nat)
    ensures
        fraction_digits(digits, decimals).len() == decimals,
        integer_digits(digits, decimals).len() >= 1,
        all_digits(integer_digits(digits, decimals) + fraction_digits(digits, decimals)),
        number_value(integer_digits(digits, decimals) + fraction_digits(digits, decimals))
            == digits,
{
    lemma_decimal_digits(digits);
    let d = decimal_digits(digits);
    let whole = integer_digits(digits, decimals);
    let fraction = fraction_digits(digits, decimals);
    let all = whole + fraction;
    if d.len() > decimals {
        assert(all == d);
    } else {
        let m = (decimals - d.len()) as nat;
        assert(all == zeros(m + 1) + d);
        lemma_leading_zeros(m + 1, d);
        assert forall|i: int| 0 <= i < all.len() implies is_digit(#[trigger] all[i]) by {
            if i >= m + 1 {
                assert(all[i] == d[i - (m + 1)]);
            }
        }
    }
}

/// The decimal notation of a literal is a literal of the same value:
/// read back, it gives digits and decimals that stand for the number
/// that was written.
pub proof fn lemma_literal_of_decimal_text(number: FPNum)
    ensures
        literal(decimal_text(number.digits as nat, number.decimals as nat)) matches Ok(read)
            && read.digits * pow(10, number.decimals as nat) == number.digits * pow(
            10,
            read.decimals as nat,
        ),
{
    let digits = number.digits as nat;
    let decimals = number.decimals as nat;
    let whole = integer_digits(digits, decimals);
    let fraction = fraction_digits(digits, decimals);
    let kept = strip_trailing_zeros(fraction);
    let z = (fraction.len() - kept.len()) as nat;
    lemma_digits_around_point(digits, decimals);
    lemma_strip_trailing_zeros(fraction);
    let all = whole + fraction;
    let read_digits = whole + kept;
    assert(all == read_digits + zeros(z));
    lemma_trailing_zeros(read_digits, z);
    vstd::arithmetic::power::lemma_pow_positive(10, z);
    assert(number_value(read_digits) <= digits) by (nonlinear_arith)
        requires
            number_value(read_digits) * pow(10, z) == digits,
            pow(10, z) >= 1,
    ;
    assert(all_digits(read_digits)) by {
        assert forall|i: int| 0 <= i < read_digits.len() implies is_digit(
            #[trigger] read_digits[i],
        ) by {
            assert(read_digits[i] == all[i]);
        }
    }
    assert(all_digits(kept)) by {
        assert forall|i: int| 0 <= i < kept.len() implies is_digit(#[trigger] kept[i]) by {
            assert(kept[i] == all[whole.len() + i]);
        }
    }
    let text = decimal_text(digits, decimals);
    if kept.len() == 0 {
        assert(text == whole);
        assert(read_digits == whole);
        lemma_digits_hold_no_separator(whole);
        assert(whole + Seq::<char>::empty() == whole);
        vstd::arithmetic::power::lemma_pow0(10);
        assert(literal(text) == split_literal(whole, Seq::<char>::empty()));
    } else {
        assert(text == whole + seq!['.'] + kept);
        lemma_last_point(whole, kept);
        assert(text.subrange(0, whole.len() as int) == whole);
        assert(text.subrange(whole.len() as int + 1, text.len() as int) == kept);
        assert(literal(text) == split_literal(whole, kept));
        vstd::arithmetic::power::lemma_pow_adds(10, z, kept.len());
        assert(number_value(read_digits) * pow(10, decimals) == digits * pow(10, kept.len()))
            by (nonlinear_arith)
            requires
                number_value(read_digits) * pow(10, z) == digits,
                pow(10, decimals) == pow(10, z) * pow(10, kept.len()),
        ;
    }
}

} // verus!
