//! Fixed-point literals: a whole number of digits and the place of the point.

use vstd::prelude::*;
use crate::parsing::text::{from_chars, to_chars};

verus! {

/// A non-negative number with a set number of decimals: `digits / 10^decimals`.
#[derive(Debug, Hash, PartialEq, Eq, Copy, Clone, Structural)]
pub struct FPNum {
    pub digits: u32,
    pub decimals: u32,
}

/// Why a text is no fixed-point literal.
#[derive(Debug, PartialEq, Eq, Copy, Clone, Structural)]
pub enum FPNumErrorKind {
    /// The text holds no digit.
    Empty,
    /// A character that is no digit stands where a digit is required.
    InvalidDigit,
    /// The digits or the number of decimals do not fit in 32 bits.
    Overflow,
}

/// The error of reading a fixed-point literal.
#[derive(Debug, PartialEq, Eq, Copy, Clone, Structural)]
pub struct ParseFPNumError {
    pub kind: FPNumErrorKind,
}

/// `c` is one of the digits `0` to `9`.
pub open spec fn is_digit(c: char) -> bool {
    0x30 <= c as u32 <= 0x39
}

/// The number that the digit `c` stands for.
pub open spec fn digit_value(c: char) -> nat {
    (c as u32 - 0x30) as nat
}

/// The digit that stands for `n`, which is less than 10.
pub open spec fn digit_char(n: nat) -> char {
    if n == 0 {
        '0'
    } else if n == 1 {
        '1'
    } else if n == 2 {
        '2'
    } else if n == 3 {
        '3'
    } else if n == 4 {
        '4'
    } else if n == 5 {
        '5'
    } else if n == 6 {
        '6'
    } else if n == 7 {
        '7'
    } else if n == 8 {
        '8'
    } else {
        '9'
    }
}

/// Every character of `s` is a digit.
pub open spec fn all_digits(s: Seq<char>) -> bool {
    forall|i: int| 0 <= i < s.len() ==> is_digit(#[trigger] s[i])
}

/// The number written by the digits `s` in base ten.
pub open spec fn number_value(s: Seq<char>) -> nat
    decreases s.len(),
{
    if s.len() == 0 {
        0
    } else {
        number_value(s.drop_last()) * 10 + digit_value(s.last())
    }
}

/// The place of the last `c` in `s`.
pub open spec fn last_index_of(s: Seq<char>, c: char) -> Option<int>
    decreases s.len(),
{
    if s.len() == 0 {
        None
    } else if s.last() == c {
        Some(s.len() - 1)
    } else {
        last_index_of(s.drop_last(), c)
    }
}

/// The literal whose digits are those of `integer` followed by those of
/// `fraction`, with as many decimals as `fraction` has characters.
pub open spec fn split_literal(integer: Seq<char>, fraction: Seq<char>) -> Result<
    FPNum,
    ParseFPNumError,
> {
    let all = integer + fraction;
    if all.len() == 0 {
        Err(ParseFPNumError { kind: FPNumErrorKind::Empty })
    } else if !all_digits(all) {
        Err(ParseFPNumError { kind: FPNumErrorKind::InvalidDigit })
    } else if number_value(all) > u32::MAX || fraction.len() > u32::MAX {
        Err(ParseFPNumError { kind: FPNumErrorKind::Overflow })
    } else {
        Ok(FPNum { digits: number_value(all) as u32, decimals: fraction.len() as u32 })
    }
}

/// The literal that `s` writes: digits, with at most one decimal
/// separator among them, `.` or `,`. The text is cut at its last `.`, or
/// else at its last `,`.
pub open spec fn literal(s: Seq<char>) -> Result<FPNum, ParseFPNumError> {
    match last_index_of(s, '.') {
        Some(k) => split_literal(s.subrange(0, k), s.subrange(k + 1, s.len() as int)),
        None => match last_index_of(s, ',') {
            Some(k) => split_literal(s.subrange(0, k), s.subrange(k + 1, s.len() as int)),
            None => split_literal(s, Seq::empty()),
        },
    }
}

/// The digits of `n` in base ten, without leading zeros.
pub open spec fn decimal_digits(n: nat) -> Seq<char>
    decreases n,
{
    if n < 10 {
        seq![digit_char(n)]
    } else {
        decimal_digits(n / 10).push(digit_char(n % 10))
    }
}

/// `n` zeros.
pub open spec fn zeros(n: nat) -> Seq<char> {
    Seq::new(n, |i: int| '0')
}

/// `s` without the zeros at its end.
pub open spec fn strip_trailing_zeros(s: Seq<char>) -> Seq<char>
    decreases s.len(),
{
    if s.len() > 0 && s.last() == '0' {
        strip_trailing_zeros(s.drop_last())
    } else {
        s
    }
}

/// The digits before the point of `digits / 10^decimals`.
pub open spec fn integer_digits(digits: nat, decimals: nat) -> Seq<char> {
    let d = decimal_digits(digits);
    if d.len() > decimals {
        d.subrange(0, d.len() - decimals)
    } else {
        seq!['0']
    }
}

/// The `decimals` digits behind the point of `digits / 10^decimals`.
pub open spec fn fraction_digits(digits: nat, decimals: nat) -> Seq<char> {
    let d = decimal_digits(digits);
    if d.len() >= decimals {
        d.subrange(d.len() - decimals, d.len() as int)
    } else {
        zeros((decimals - d.len()) as nat) + d
    }
}

/// `digits / 10^decimals` written in decimal notation: no zeros at the
/// end of the fraction, and no point where no fraction is left.
pub open spec fn decimal_text(digits: nat, decimals: nat) -> Seq<char> {
    let fraction = strip_trailing_zeros(fraction_digits(digits, decimals));
    if fraction.len() == 0 {
        integer_digits(digits, decimals)
    } else {
        integer_digits(digits, decimals) + seq!['.'] + fraction
    }
}

/// The number written by a prefix of a digit string is no greater than
/// the number written by the whole.
pub proof fn lemma_number_value_prefix(s: Seq<char>, i: int)
    requires
        0 <= i <= s.len(),
    ensures
        number_value(s.take(i)) <= number_value(s),
    decreases s.len() - i,
{
    if i < s.len() {
        lemma_number_value_prefix(s, i + 1);
        assert(s.take(i + 1).drop_last() == s.take(i));
    } else {
        assert(s.take(i) == s);
    }
}

/// Whether `c` is a digit.
pub fn char_is_digit(c: char) -> (b: bool)
    ensures
        b == is_digit(c),
{
    let n: u32 = c as u32;
    0x30 <= n && n <= 0x39
}

/// The digit that stands for `n`.
pub fn digit_of(n: u32) -> (c: char)
    requires
        n < 10,
    ensures
        c == digit_char(n as nat),
        is_digit(c),
        digit_value(c) == n,
{
    if n == 0 {
        '0'
    } else if n == 1 {
        '1'
    } else if n == 2 {
        '2'
    } else if n == 3 {
        '3'
    } else if n == 4 {
        '4'
    } else if n == 5 {
        '5'
    } else if n == 6 {
        '6'
    } else if n == 7 {
        '7'
    } else if n == 8 {
        '8'
    } else {
        '9'
    }
}

/// The place of the last `c` in `text`.
pub fn find_last(text: &[char], c: char) -> (found: Option<usize>)
    ensures
        match found {
            Some(k) => k < text.len() && last_index_of(text@, c) == Some(k as int),
            None => last_index_of(text@, c) is None,
        },
{
    let mut i: usize = text.len();
    assert(text@.take(i as int) == text@);
    while i > 0
        invariant
            i <= text.len(),
            last_index_of(text@, c) == last_index_of(text@.take(i as int), c),
        decreases i,
    {
        if text[i - 1] == c {
            return Some(i - 1);
        }
        assert(text@.take(i as int).drop_last() == text@.take(i - 1));
        i -= 1;
    }
    None
}

/// Appends the digits of `n` to `out`.
pub fn push_decimal(out: &mut Vec<char>, n: u32)
    ensures
        final(out)@ == old(out)@ + decimal_digits(n as nat),
    decreases n,
{
    if n >= 10 {
        push_decimal(out, n / 10);
    }
    let c = digit_of(n % 10);
    out.push(c);
    proof {
        if n >= 10 {
            assert(old(out)@ + decimal_digits(n as nat) == (old(out)@ + decimal_digits(
                (n / 10) as nat,
            )).push(c));
        } else {
            assert(old(out)@ + decimal_digits(n as nat) == old(out)@.push(c));
        }
    }
}

impl FPNum {
    /// The literal whose digits are those of `integer` followed by those
    /// of `fraction`, the latter being its decimals.
    pub fn from_split(integer: &[char], fraction: &[char]) -> (parsed: Result<
        FPNum,
        ParseFPNumError,
    >)
        ensures
            parsed == split_literal(integer@, fraction@),
    {
        let ghost all = integer@ + fraction@;
        if integer.len() == 0 && fraction.len() == 0 {
            return Err(ParseFPNumError { kind: FPNumErrorKind::Empty });
        }
        let mut i: usize = 0;
        while i < integer.len()
            invariant
                i <= integer.len(),
                all == integer@ + fraction@,
                forall|j: int| 0 <= j < i ==> is_digit(#[trigger] all[j]),
            decreases integer.len() - i,
        {
            if !char_is_digit(integer[i]) {
                assert(!is_digit(all[i as int]));
                return Err(ParseFPNumError { kind: FPNumErrorKind::InvalidDigit });
            }
            i += 1;
        }
        let mut k: usize = 0;
        while k < fraction.len()
            invariant
                k <= fraction.len(),
                all == integer@ + fraction@,
                forall|j: int| 0 <= j < integer.len() + k ==> is_digit(#[trigger] all[j]),
            decreases fraction.len() - k,
        {
            if !char_is_digit(fraction[k]) {
                assert(!is_digit(all[integer.len() + k]));
                return Err(ParseFPNumError { kind: FPNumErrorKind::InvalidDigit });
            }
            k += 1;
        }
        assert(all_digits(all));
        let mut value: u64 = 0;
        let mut i: usize = 0;
        assert(all.take(0) == Seq::<char>::empty());
        while i < integer.len()
            invariant
                i <= integer.len(),
                all == integer@ + fraction@,
                all_digits(all),
                value == number_value(all.take(i as int)),
                value <= u32::MAX,
            decreases integer.len() - i,
        {
            let c = integer[i];
            assert(all[i as int] == c);
            assert(all.take(i + 1).drop_last() == all.take(i as int));
            let code: u32 = c as u32;
            value = value * 10 + (code - 0x30) as u64;
            i += 1;
            if value > 0xffff_ffff {
                proof {
                    lemma_number_value_prefix(all, i as int);
                }
                return Err(ParseFPNumError { kind: FPNumErrorKind::Overflow });
            }
        }
        let mut k: usize = 0;
        while k < fraction.len()
            invariant
                k <= fraction.len(),
                all == integer@ + fraction@,
                all_digits(all),
                value == number_value(all.take(integer.len() + k)),
                value <= u32::MAX,
            decreases fraction.len() - k,
        {
            let c = fraction[k];
            assert(all[integer.len() + k] == c);
            assert(all.take(integer.len() + k + 1).drop_last() == all.take(integer.len() + k));
            let code: u32 = c as u32;
            value = value * 10 + (code - 0x30) as u64;
            k += 1;
            if value > 0xffff_ffff {
                proof {
                    lemma_number_value_prefix(all, integer.len() + k);
                }
                return Err(ParseFPNumError { kind: FPNumErrorKind::Overflow });
            }
        }
        assert(all.take(integer.len() + fraction.len()) == all);
        if fraction.len() > 0xffff_ffff {
            return Err(ParseFPNumError { kind: FPNumErrorKind::Overflow });
        }
        Ok(FPNum { digits: value as u32, decimals: fraction.len() as u32 })
    }

    /// Reads a literal from its characters: digits, with at most one
    /// decimal separator among them, `.` or `,`.
    pub fn from_chars(text: &[char]) -> (parsed: Result<FPNum, ParseFPNumError>)
        ensures
            parsed == literal(text@),
    {
        let cut = match find_last(text, '.') {
            Some(k) => Some(k),
            None => find_last(text, ','),
        };
        match cut {
            Some(k) => FPNum::from_split(
                vstd::slice::slice_subrange(text, 0, k),
                vstd::slice::slice_subrange(text, k + 1, text.len()),
            ),
            None => {
                let nothing: Vec<char> = Vec::new();
                assert(nothing@ == Seq::<char>::empty());
                FPNum::from_split(text, nothing.as_slice())
            },
        }
    }

    /// Reads a literal from a string.
    pub fn parse(input: &str) -> (parsed: Result<FPNum, ParseFPNumError>)
        ensures
            parsed == literal(input@),
    {
        let chars = to_chars(input);
        FPNum::from_chars(chars.as_slice())
    }

    /// Appends the decimal notation of the number to `out`.
    pub fn push_to(&self, out: &mut Vec<char>)
        ensures
            final(out)@ == old(out)@ + decimal_text(self.digits as nat, self.decimals as nat),
    {
        let mut d: Vec<char> = Vec::new();
        push_decimal(&mut d, self.digits);
        assert(d@ == decimal_digits(self.digits as nat));
        let decimals = self.decimals as usize;
        let ghost before = old(out)@;
        // the digits behind the point, and then those of them that are printed
        let mut fraction: Vec<char> = Vec::new();
        let cut: usize = if d.len() >= decimals {
            d.len() - decimals
        } else {
            let mut z: usize = 0;
            while z < decimals - d.len()
                invariant
                    d.len() < decimals,
                    z <= decimals - d.len(),
                    fraction@ == zeros(z as nat),
                decreases decimals - d.len() - z,
            {
                fraction.push('0');
                z += 1;
                assert(fraction@ == zeros(z as nat));
            }
            0
        };
        let ghost lead = fraction@;
        let mut i: usize = cut;
        while i < d.len()
            invariant
                cut <= i <= d.len(),
                fraction@ == lead + d@.subrange(cut as int, i as int),
            decreases d.len() - i,
        {
            fraction.push(d[i]);
            i += 1;
            assert(fraction@ == lead + d@.subrange(cut as int, i as int));
        }
        assert(fraction@ == fraction_digits(self.digits as nat, self.decimals as nat));
        let mut kept: usize = fraction.len();
        assert(fraction@.take(kept as int) == fraction@);
        while kept > 0 && fraction[kept - 1] == '0'
            invariant
                kept <= fraction.len(),
                strip_trailing_zeros(fraction@) == strip_trailing_zeros(
                    fraction@.take(kept as int),
                ),
            decreases kept,
        {
            assert(fraction@.take(kept as int).drop_last() == fraction@.take(kept - 1));
            kept -= 1;
        }
        assert(strip_trailing_zeros(fraction@) == fraction@.take(kept as int));
        if d.len() > decimals {
            let mut i: usize = 0;
            while i < cut
                invariant
                    i <= cut <= d.len(),
                    out@ == before + d@.subrange(0, i as int),
                decreases cut - i,
            {
                out.push(d[i]);
                i += 1;
                assert(out@ == before + d@.subrange(0, i as int));
            }
        } else {
            out.push('0');
            assert(out@ == before + seq!['0']);
        }
        assert(out@ == before + integer_digits(self.digits as nat, self.decimals as nat));
        if kept > 0 {
            out.push('.');
            let ghost start = out@;
            let mut i: usize = 0;
            while i < kept
                invariant
                    i <= kept <= fraction.len(),
                    out@ == start + fraction@.take(i as int),
                decreases kept - i,
            {
                out.push(fraction[i]);
                i += 1;
                assert(out@ == start + fraction@.take(i as int));
            }
            assert(out@ == before + (integer_digits(self.digits as nat, self.decimals as nat)
                + seq!['.'] + fraction@.take(kept as int)));
        }
    }

    /// The number in decimal notation.
    pub fn to_string(&self) -> (text: String)
        ensures
            text@ == decimal_text(self.digits as nat, self.decimals as nat),
    {
        let mut out: Vec<char> = Vec::new();
        self.push_to(&mut out);
        from_chars(out.as_slice())
    }
}

impl Default for FPNum {
    fn default() -> (zero: FPNum)
        ensures
            zero == (FPNum { digits: 0, decimals: 0 }),
    {
        FPNum { digits: 0, decimals: 0 }
    }
}

impl std::str::FromStr for FPNum {
    type Err = ParseFPNumError;

    fn from_str(input: &str) -> (parsed: Result<FPNum, ParseFPNumError>)
        ensures
            parsed == literal(input@),
    {
        FPNum::parse(input)
    }
}

} // verus!
