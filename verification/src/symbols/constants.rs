//! Named mathematical constants and the names they are written with.

use vstd::prelude::*;
use crate::parsing::text::from_chars;

verus! {

/// A symbol that stands for a number.
#[derive(Debug, Hash, PartialEq, Eq, PartialOrd, Ord, Copy, Clone, Structural)]
pub enum Constant {
    Pi,
    Tau,
    E,
    Euler,
    GoldenRatio,
    Imaginary,
    Variable(char),
}

/// The text a constant is printed as.
pub open spec fn constant_name(constant: Constant) -> Seq<char> {
    match constant {
        Constant::Pi => seq!['π'],
        Constant::Tau => seq!['τ'],
        Constant::E => seq!['e'],
        Constant::Euler => seq!['γ'],
        Constant::GoldenRatio => seq!['ϕ'],
        Constant::Imaginary => seq!['i'],
        Constant::Variable(name) => seq![name],
    }
}

/// The place of a constant in the order in which constants are listed:
/// the named ones in the order of their declaration, then the variables
/// by their character.
pub open spec fn constant_rank(constant: Constant) -> nat {
    match constant {
        Constant::Pi => 0,
        Constant::Tau => 1,
        Constant::E => 2,
        Constant::Euler => 3,
        Constant::GoldenRatio => 4,
        Constant::Imaginary => 5,
        Constant::Variable(name) => 6 + (name as u32) as nat,
    }
}

/// Constants of equal rank are equal.
pub proof fn lemma_constant_rank_injective(a: Constant, b: Constant)
    requires
        constant_rank(a) == constant_rank(b),
    ensures
        a == b,
{
}

/// `c` is the letter written `lower` or `upper`.
pub open spec fn is_letter(c: char, lower: char, upper: char) -> bool {
    c == lower || c == upper
}

/// The constant whose name `s` starts with, whatever the case of its
/// letters, and the length of that name. The longest name is taken.
pub open spec fn constant_prefix(s: Seq<char>) -> Option<(Constant, nat)> {
    if s.len() >= 3 && is_letter(s[0], 't', 'T') && is_letter(s[1], 'a', 'A') && is_letter(
        s[2],
        'u',
        'U',
    ) {
        Some((Constant::Tau, 3))
    } else if s.len() >= 2 && is_letter(s[0], 'p', 'P') && is_letter(s[1], 'i', 'I') {
        Some((Constant::Pi, 2))
    } else if s.len() >= 1 && is_letter(s[0], 'π', 'Π') {
        Some((Constant::Pi, 1))
    } else if s.len() >= 1 && is_letter(s[0], 'τ', 'Τ') {
        Some((Constant::Tau, 1))
    } else if s.len() >= 1 && is_letter(s[0], 'e', 'E') {
        Some((Constant::E, 1))
    } else if s.len() >= 1 && is_letter(s[0], 'i', 'I') {
        Some((Constant::Imaginary, 1))
    } else {
        None
    }
}

/// Whether `c` is the letter written `lower` or `upper`.
fn char_is_letter(c: char, lower: char, upper: char) -> (b: bool)
    ensures
        b == is_letter(c, lower, upper),
{
    c == lower || c == upper
}

/// The place of `constant` in the order of constants.
pub fn rank_of(constant: Constant) -> (rank: u64)
    ensures
        rank == constant_rank(constant),
{
    match constant {
        Constant::Pi => 0,
        Constant::Tau => 1,
        Constant::E => 2,
        Constant::Euler => 3,
        Constant::GoldenRatio => 4,
        Constant::Imaginary => 5,
        Constant::Variable(name) => {
            let code: u32 = name as u32;
            6 + code as u64
        },
    }
}

/// Looks for the name of a constant at the start of `text`.
pub fn match_constant(text: &[char]) -> (found: Option<(Constant, usize)>)
    ensures
        match found {
            Some((constant, len)) => constant_prefix(text@) == Some((constant, len as nat)) && 0
                < len <= text.len(),
            None => constant_prefix(text@) is None,
        },
{
    let n = text.len();
    if n >= 3 && char_is_letter(text[0], 't', 'T') && char_is_letter(text[1], 'a', 'A')
        && char_is_letter(text[2], 'u', 'U') {
        Some((Constant::Tau, 3))
    } else if n >= 2 && char_is_letter(text[0], 'p', 'P') && char_is_letter(text[1], 'i', 'I') {
        Some((Constant::Pi, 2))
    } else if n >= 1 && char_is_letter(text[0], 'π', 'Π') {
        Some((Constant::Pi, 1))
    } else if n >= 1 && char_is_letter(text[0], 'τ', 'Τ') {
        Some((Constant::Tau, 1))
    } else if n >= 1 && char_is_letter(text[0], 'e', 'E') {
        Some((Constant::E, 1))
    } else if n >= 1 && char_is_letter(text[0], 'i', 'I') {
        Some((Constant::Imaginary, 1))
    } else {
        None
    }
}

/// Appends the name of `constant` to `out`.
pub fn push_constant(out: &mut Vec<char>, constant: Constant)
    ensures
        final(out)@ == old(out)@ + constant_name(constant),
{
    let c = match constant {
        Constant::Pi => 'π',
        Constant::Tau => 'τ',
        Constant::E => 'e',
        Constant::Euler => 'γ',
        Constant::GoldenRatio => 'ϕ',
        Constant::Imaginary => 'i',
        Constant::Variable(name) => name,
    };
    out.push(c);
    assert(constant_name(constant) == seq![c]);
    assert(old(out)@.push(c) == old(out)@ + seq![c]);
}

/// The text that `constant` is printed as.
pub fn constant_str(constant: &Constant) -> (name: String)
    ensures
        name@ == constant_name(*constant),
{
    let mut out: Vec<char> = Vec::new();
    push_constant(&mut out, *constant);
    from_chars(out.as_slice())
}

} // verus!
