//! Small helpers for text.
use vstd::prelude::*;

verus! {

/// The characters of a string.
pub fn chars_of(text: &str) -> (r: Vec<char>)
    ensures
        r@ == text@,
{
    let mut out: Vec<char> = Vec::new();
    for c in it: text.chars()
        invariant
            out@ == it.seq().take(it.index() as int),
    {
        out.push(c);
    }
    out
}

/// Whether two strings hold the same characters.
pub fn str_eq(a: &str, b: &str) -> (r: bool)
    ensures
        r == (a@ == b@),
{
    let x = chars_of(a);
    let y = chars_of(b);
    if x.len() != y.len() {
        return false;
    }
    let mut i: usize = 0;
    while i < x.len()
        invariant
            x@ == a@,
            y@ == b@,
            x@.len() == y@.len(),
            i <= x@.len(),
            forall|j: int| 0 <= j < i ==> x@[j] == y@[j],
        decreases x@.len() - i,
    {
        if x[i] != y[i] {
            return false;
        }
        i = i + 1;
    }
    proof {
        assert(a@ =~= b@);
    }
    true
}

/// The string of a run of characters: `String`'s `FromIterator<&char>`,
/// which appends the characters in order.
#[verifier::external_body]
pub fn string_of(chars: &Vec<char>) -> (r: String)
    ensures
        r@ == chars@,
{
    chars.iter().collect()
}

/// Whether `chars[lo..hi]` spells `text`.
pub fn spells(chars: &Vec<char>, lo: usize, hi: usize, text: &str) -> (r: bool)
    requires
        lo <= hi <= chars@.len(),
    ensures
        r == (chars@.subrange(lo as int, hi as int) == text@),
{
    let t = chars_of(text);
    if hi - lo != t.len() {
        return false;
    }
    let mut i: usize = 0;
    while i < t.len()
        invariant
            t@ == text@,
            hi - lo == t@.len(),
            lo <= hi <= chars@.len(),
            i <= t@.len(),
            forall|j: int| 0 <= j < i ==> chars@[lo + j] == t@[j],
        decreases t@.len() - i,
    {
        if chars[lo + i] != t[i] {
            return false;
        }
        i = i + 1;
    }
    proof {
        assert(chars@.subrange(lo as int, hi as int) =~= text@);
    }
    true
}

} // verus!
