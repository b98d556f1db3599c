//! Splitting a text at its first top-level operator.

use vstd::prelude::*;
use vstd::string::*;
use crate::parsing::cleaning::{trim, trim_chars};
use crate::parsing::text::to_chars;

verus! {

/// The outcome of looking for one of two operators in a text.
#[derive(Debug, PartialEq, Eq)]
pub enum Split<T> {
    /// The first operator found is the normal one; the texts before and after it.
    Normal((T, T)),
    /// The first operator found is the opposite one; the texts before and after it.
    Opposite((T, T)),
    /// No operator was found; the whole text.
    Single(T),
}

impl<T: View> View for Split<T> {
    type V = Split<T::V>;

    open spec fn view(&self) -> Split<T::V> {
        match *self {
            Split::Normal((a, b)) => Split::Normal((a@, b@)),
            Split::Opposite((a, b)) => Split::Opposite((a@, b@)),
            Split::Single(a) => Split::Single(a@),
        }
    }
}

/// The number of parentheses that are open after the first `i` characters
/// of `s`. A closing parenthesis that closes nothing is passed over.
pub open spec fn nesting_depth(s: Seq<char>, i: int) -> nat
    decreases i,
{
    if i <= 0 || i > s.len() {
        0
    } else {
        let before = nesting_depth(s, i - 1);
        if s[i - 1] == '(' {
            before + 1
        } else if s[i - 1] == ')' && before > 0 {
            (before - 1) as nat
        } else {
            before
        }
    }
}

/// The character at `i` stands outside every parenthesis and opens none.
pub open spec fn is_top_level(s: Seq<char>, i: int) -> bool {
    0 <= i < s.len() && nesting_depth(s, i) == 0 && s[i] != '('
}

/// `s` can be split at `i`: one of the two operators stands there at top
/// level, it is not the first character, and the character before it is
/// neither `*` nor `/`, after which a sign belongs to the operand.
pub open spec fn is_split_point(s: Seq<char>, i: int, normal: char, opposite: char) -> bool {
    &&& 0 < i < s.len()
    &&& is_top_level(s, i)
    &&& s[i - 1] != '*'
    &&& s[i - 1] != '/'
    &&& (s[i] == normal || s[i] == opposite)
}

/// The first split point of `s` at or after `from`.
pub open spec fn split_point_from(s: Seq<char>, from: int, normal: char, opposite: char) -> Option<
    int,
>
    decreases s.len() - from,
{
    if from >= s.len() {
        None
    } else if is_split_point(s, from, normal, opposite) {
        Some(from)
    } else {
        split_point_from(s, from + 1, normal, opposite)
    }
}

/// The first split point of `s`.
pub open spec fn first_split_point(s: Seq<char>, normal: char, opposite: char) -> Option<int> {
    split_point_from(s, 0, normal, opposite)
}

/// What splitting `s` yields: the trimmed text cut at its first split
/// point, the operator itself left out, or the trimmed text as a whole.
pub open spec fn split_text(s: Seq<char>, normal: char, opposite: char) -> Split<Seq<char>> {
    let t = trim(s);
    match first_split_point(t, normal, opposite) {
        Some(i) => {
            if t[i] == normal {
                Split::Normal((t.subrange(0, i), t.subrange(i + 1, t.len() as int)))
            } else {
                Split::Opposite((t.subrange(0, i), t.subrange(i + 1, t.len() as int)))
            }
        },
        None => Split::Single(t),
    }
}

/// `split_point_from` finds the least split point that is not before
/// `from`, and finds nothing only where there is none.
pub proof fn lemma_split_point_from(s: Seq<char>, from: int, normal: char, opposite: char)
    requires
        0 <= from,
    ensures
        match split_point_from(s, from, normal, opposite) {
            Some(i) => {
                &&& from <= i
                &&& is_split_point(s, i, normal, opposite)
                &&& forall|j: int| from <= j < i ==> !is_split_point(s, j, normal, opposite)
            },
            None => forall|j: int| from <= j ==> !is_split_point(s, j, normal, opposite),
        },
    decreases s.len() - from,
{
    if from < s.len() && !is_split_point(s, from, normal, opposite) {
        lemma_split_point_from(s, from + 1, normal, opposite);
    }
}

/// A text is never split inside a parenthesis nor at its first character,
/// and always at the first place where it can be split.
pub proof fn lemma_split_is_top_level(s: Seq<char>, normal: char, opposite: char)
    ensures
        match first_split_point(s, normal, opposite) {
            Some(i) => {
                &&& 0 < i < s.len()
                &&& nesting_depth(s, i) == 0
                &&& (s[i] == normal || s[i] == opposite)
                &&& forall|j: int| 0 <= j < i ==> !is_split_point(s, j, normal, opposite)
            },
            None => forall|j: int| !is_split_point(s, j, normal, opposite),
        },
{
    lemma_split_point_from(s, 0, normal, opposite);
}

/// The parts of a split are shorter than the text that was split.
pub proof fn lemma_split_text_len(s: Seq<char>, normal: char, opposite: char)
    ensures
        match split_text(s, normal, opposite) {
            Split::Normal((a, b)) => a.len() < s.len() && b.len() < s.len(),
            Split::Opposite((a, b)) => a.len() < s.len() && b.len() < s.len(),
            Split::Single(a) => a.len() <= s.len(),
        },
{
    crate::parsing::cleaning::lemma_trim_len(s);
    lemma_split_is_top_level(trim(s), normal, opposite);
}

/// What holds of every split: the operator that was found stands between
/// the two parts, outside every parenthesis, and the part before it is
/// not empty.
pub open spec fn is_top_level_split(
    split: Split<Seq<char>>,
    s: Seq<char>,
    normal: char,
    opposite: char,
) -> bool {
    match split {
        Split::Normal((a, b)) => {
            &&& a.len() > 0
            &&& nesting_depth(trim(s), a.len() as int) == 0
            &&& trim(s) == a + seq![normal] + b
        },
        Split::Opposite((a, b)) => {
            &&& a.len() > 0
            &&& nesting_depth(trim(s), a.len() as int) == 0
            &&& trim(s) == a + seq![opposite] + b
        },
        Split::Single(a) => a == trim(s),
    }
}

/// A text is split at top level only, and never at its first character.
pub proof fn lemma_split_text_top_level(s: Seq<char>, normal: char, opposite: char)
    ensures
        is_top_level_split(split_text(s, normal, opposite), s, normal, opposite),
{
    let t = trim(s);
    lemma_split_is_top_level(t, normal, opposite);
    if let Some(i) = first_split_point(t, normal, opposite) {
        let a = t.subrange(0, i);
        let b = t.subrange(i + 1, t.len() as int);
        assert(t =~= a + seq![t[i]] + b);
    }
}

/// The index of the first split point of `text`.
pub fn find_split_point(text: &[char], normal: char, opposite: char) -> (found: Option<usize>)
    ensures
        match found {
            Some(i) => 0 < i < text.len() && first_split_point(text@, normal, opposite) == Some(
                i as int,
            ),
            None => first_split_point(text@, normal, opposite) is None,
        },
{
    let mut depth: usize = 0;
    let mut i: usize = 0;
    while i < text.len()
        invariant
            i <= text.len(),
            depth <= i,
            depth == nesting_depth(text@, i as int),
            first_split_point(text@, normal, opposite) == split_point_from(
                text@,
                i as int,
                normal,
                opposite,
            ),
        decreases text.len() - i,
    {
        let c = text[i];
        if c == '(' {
            depth += 1;
        } else if depth > 0 {
            if c == ')' {
                depth -= 1;
            }
        } else if i > 0 && text[i - 1] != '*' && text[i - 1] != '/' && (c == normal || c
            == opposite) {
            return Some(i);
        }
        i += 1;
    }
    None
}

/// Splits `text` at its first top-level `normal` or `opposite` character.
pub fn split_chars<'a>(text: &'a [char], normal: char, opposite: char) -> (split: Split<
    &'a [char],
>)
    ensures
        split@ == split_text(text@, normal, opposite),
        is_top_level_split(split@, text@, normal, opposite),
{
    proof {
        lemma_split_text_top_level(text@, normal, opposite);
    }
    let t = trim_chars(text);
    match find_split_point(t, normal, opposite) {
        Some(i) => {
            proof {
                lemma_split_is_top_level(t@, normal, opposite);
            }
            let before = vstd::slice::slice_subrange(t, 0, i);
            let after = vstd::slice::slice_subrange(t, i + 1, t.len());
            if t[i] == normal {
                Split::Normal((before, after))
            } else {
                Split::Opposite((before, after))
            }
        },
        None => Split::Single(t),
    }
}

/// Splits `string` at its first top-level `split_character` or
/// `inverse_character`: outside every parenthesis, not at the first
/// character and not directly behind `*` or `/`.
pub fn split_at<'a>(string: &'a str, split_character: char, inverse_character: char) -> (split:
    Split<&'a str>)
    ensures
        split@ == split_text(string@, split_character, inverse_character),
        is_top_level_split(split@, string@, split_character, inverse_character),
{
    proof {
        lemma_split_text_top_level(string@, split_character, inverse_character);
    }
    let chars = to_chars(string);
    let whole = chars.as_slice();
    let t = trim_chars(whole);
    let (lo, hi) = crate::parsing::cleaning::trim_bounds(whole);
    match find_split_point(t, split_character, inverse_character) {
        Some(i) => {
            proof {
                lemma_split_is_top_level(t@, split_character, inverse_character);
            }
            let before = string.substring_char(lo, lo + i);
            let after = string.substring_char(lo + i + 1, hi);
            assert(before@ == t@.subrange(0, i as int));
            assert(after@ == t@.subrange(i + 1, t@.len() as int));
            if t[i] == split_character {
                Split::Normal((before, after))
            } else {
                Split::Opposite((before, after))
            }
        },
        None => Split::Single(string.substring_char(lo, hi)),
    }
}

} // verus!
