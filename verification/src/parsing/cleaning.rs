//! White space and its removal.

use vstd::prelude::*;
use crate::parsing::text::{from_chars, to_chars};

verus! {

/// The characters that count as white space: the Unicode `White_Space` set.
pub open spec fn is_whitespace(c: char) -> bool {
    let n = c as u32;
    ||| 0x09 <= n <= 0x0d
    ||| n == 0x20
    ||| n == 0x85
    ||| n == 0xa0
    ||| n == 0x1680
    ||| 0x2000 <= n <= 0x200a
    ||| n == 0x2028
    ||| n == 0x2029
    ||| n == 0x202f
    ||| n == 0x205f
    ||| n == 0x3000
}

/// `s` without its white space.
pub open spec fn without_whitespace(s: Seq<char>) -> Seq<char> {
    s.filter(|c: char| !is_whitespace(c))
}

/// `s` without the white space at its start.
pub open spec fn trim_start(s: Seq<char>) -> Seq<char>
    decreases s.len(),
{
    if s.len() > 0 && is_whitespace(s.first()) {
        trim_start(s.drop_first())
    } else {
        s
    }
}

/// `s` without the white space at its end.
pub open spec fn trim_end(s: Seq<char>) -> Seq<char>
    decreases s.len(),
{
    if s.len() > 0 && is_whitespace(s.last()) {
        trim_end(s.drop_last())
    } else {
        s
    }
}

/// `s` without the white space at either end.
pub open spec fn trim(s: Seq<char>) -> Seq<char> {
    trim_end(trim_start(s))
}

/// Trimming never lengthens a text.
pub proof fn lemma_trim_len(s: Seq<char>)
    ensures
        trim_start(s).len() <= s.len(),
        trim_end(s).len() <= s.len(),
        trim(s).len() <= s.len(),
    decreases s.len(),
{
    if s.len() > 0 {
        lemma_trim_len(s.drop_first());
        lemma_trim_len(s.drop_last());
    }
    lemma_trim_end_len(trim_start(s));
}

proof fn lemma_trim_end_len(s: Seq<char>)
    ensures
        trim_end(s).len() <= s.len(),
    decreases s.len(),
{
    if s.len() > 0 {
        lemma_trim_end_len(s.drop_last());
    }
}

/// Whether `c` is white space.
pub fn char_is_whitespace(c: char) -> (b: bool)
    ensures
        b == is_whitespace(c),
{
    let n: u32 = c as u32;
    (0x09 <= n && n <= 0x0d) || n == 0x20 || n == 0x85 || n == 0xa0 || n == 0x1680 || (0x2000
        <= n && n <= 0x200a) || n == 0x2028 || n == 0x2029 || n == 0x202f || n == 0x205f || n
        == 0x3000
}

/// Where the trimmed text starts and ends in `text`.
pub(crate) fn trim_bounds(text: &[char]) -> (bounds: (usize, usize))
    ensures
        bounds.0 <= bounds.1 <= text.len(),
        text@.subrange(bounds.0 as int, bounds.1 as int) == trim(text@),
{
    let mut lo: usize = 0;
    assert(text@.subrange(0, text.len() as int) == text@);
    while lo < text.len() && char_is_whitespace(text[lo])
        invariant
            lo <= text.len(),
            trim_start(text@) == trim_start(text@.subrange(lo as int, text.len() as int)),
        decreases text.len() - lo,
    {
        assert(text@.subrange(lo as int, text.len() as int).drop_first() == text@.subrange(
            lo + 1,
            text.len() as int,
        ));
        lo += 1;
    }
    let mut hi: usize = text.len();
    while hi > lo && char_is_whitespace(text[hi - 1])
        invariant
            lo <= hi <= text.len(),
            trim_start(text@) == text@.subrange(lo as int, text.len() as int),
            trim(text@) == trim_end(text@.subrange(lo as int, hi as int)),
        decreases hi,
    {
        assert(text@.subrange(lo as int, hi as int).drop_last() == text@.subrange(
            lo as int,
            hi - 1,
        ));
        hi -= 1;
    }
    (lo, hi)
}

/// The part of `text` that is left when the white space at both ends is
/// taken away.
pub fn trim_chars<'a>(text: &'a [char]) -> (t: &'a [char])
    ensures
        t@ == trim(text@),
{
    let (lo, hi) = trim_bounds(text);
    vstd::slice::slice_subrange(text, lo, hi)
}

/// The characters of `text` that are no white space.
pub fn strip_whitespace(text: &[char]) -> (kept: Vec<char>)
    ensures
        kept@ == without_whitespace(text@),
{
    let mut kept: Vec<char> = Vec::new();
    let mut i: usize = 0;
    while i < text.len()
        invariant
            i <= text.len(),
            kept@ == without_whitespace(text@.take(i as int)),
        decreases text.len() - i,
    {
        let c = text[i];
        proof {
            reveal(Seq::filter);
            assert(text@.take(i + 1).drop_last() == text@.take(i as int));
        }
        if !char_is_whitespace(c) {
            kept.push(c);
        }
        i += 1;
    }
    assert(text@.take(i as int) == text@);
    kept
}

/// A copy of `string` without its white space.
pub fn remove_whitespace(string: &str) -> (cleaned: String)
    ensures
        cleaned@ == without_whitespace(string@),
{
    let chars = to_chars(string);
    let kept = strip_whitespace(chars.as_slice());
    from_chars(kept.as_slice())
}

} // verus!
