//! Conversions between strings and sequences of characters.
//!
//! All scanning in this crate works on `Vec<char>`, whose view is the same
//! `Seq<char>` that is the view of a `str`.

use vstd::prelude::*;

verus! {

/// `String::push` appends one character to the end of the string.
pub assume_specification[ String::push ](s: &mut String, c: char)
    ensures
        final(s)@ == old(s)@.push(c),
;

/// The characters of `s`, in order.
pub fn chars_of(s: &str) -> (chars: Vec<char>)
    ensures
        chars@ == s@,
{
    let mut chars: Vec<char> = Vec::new();
    for c in it: s.chars()
        invariant
            it.seq() == s@,
            chars@ == it.seq().take(it.index() as int),
    {
        chars.push(c);
    }
    chars
}

/// The string made of `chars`.
pub fn string_of(chars: &[char]) -> (s: String)
    ensures
        s@ == chars@,
{
    let mut s = String::new();
    let mut i: usize = 0;
    while i < chars.len()
        invariant
            i <= chars@.len(),
            s@ == chars@.take(i as int),
        decreases chars@.len() - i,
    {
        s.push(chars[i]);
        i += 1;
    }
    s
}

/// Whether `needle` occurs in `chars` starting at index `at`.
pub open spec fn occurs_at(chars: Seq<char>, at: int, needle: Seq<char>) -> bool {
    &&& 0 <= at
    &&& at + needle.len() <= chars.len()
    &&& chars.subrange(at, at + needle.len()) == needle
}

/// Tests whether `needle` occurs in `chars` at index `at`.
pub fn has_at(chars: &[char], at: usize, needle: &[char]) -> (found: bool)
    ensures
        found == occurs_at(chars@, at as int, needle@),
{
    if at > chars.len() || needle.len() > chars.len() - at {
        return false;
    }
    let mut k: usize = 0;
    while k < needle.len()
        invariant
            at + needle@.len() <= chars@.len() <= usize::MAX,
            k <= needle@.len(),
            chars@.subrange(at as int, at + k) =~= needle@.take(k as int),
        decreases needle@.len() - k,
    {
        if chars[at + k] != needle[k] {
            assert(chars@.subrange(at as int, at + needle@.len())[k as int] != needle@[k as int]);
            return false;
        }
        assert(chars@.subrange(at as int, at + k + 1) =~= chars@.subrange(at as int, at + k).push(
            chars@[at + k],
        ));
        assert(needle@.take(k + 1) =~= needle@.take(k as int).push(needle@[k as int]));
        k += 1;
    }
    assert(needle@.take(k as int) =~= needle@);
    true
}

} // verus!
