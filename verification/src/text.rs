//! Small text helpers shared by the other modules: ASCII case folding of bytes,
//! substring search, and hexadecimal strings.
use vstd::prelude::*;
use crate::ids::{hex_char, hex_digit, hex_text};

verus! {

/// A byte with ASCII `A`-`Z` folded to `a`-`z`, as `u8::to_ascii_lowercase` does.
pub open spec fn lower_byte(b: u8) -> u8 {
    if 65 <= b <= 90 {
        (b + 32) as u8
    } else {
        b
    }
}

/// ASCII lowercase of a byte string, as `str::to_ascii_lowercase` does on UTF-8 bytes.
pub open spec fn lower_bytes(s: Seq<u8>) -> Seq<u8> {
    s.map_values(|b: u8| lower_byte(b))
}

/// Whether `pat` occurs in `s` starting at `at`.
pub open spec fn occurs_at(s: Seq<u8>, pat: Seq<u8>, at: int) -> bool {
    0 <= at && at + pat.len() <= s.len() && s.subrange(at, at + pat.len()) == pat
}

/// Whether `pat` occurs anywhere in `s`.
pub open spec fn occurs_in(s: Seq<u8>, pat: Seq<u8>) -> bool {
    exists|at: int| occurs_at(s, pat, at)
}

/// Whether two byte strings differ at most in the ASCII case of letters.
pub open spec fn same_but_ascii_case(a: Seq<u8>, b: Seq<u8>) -> bool {
    &&& a.len() == b.len()
    &&& forall|i: int|
        0 <= i < a.len() ==> (a[i] == b[i] || (65 <= a[i] <= 90 && b[i] == a[i] + 32) || (65
            <= b[i] <= 90 && a[i] == b[i] + 32))
}

/// Lowercasing folds every capital `A`-`Z` to its small letter and leaves every
/// other byte alone: no capital remains, and the result differs from the input only
/// in ASCII case. Strings that differ only in ASCII case lowercase alike.
pub proof fn lemma_lowercase_folds_capitals(a: Seq<u8>, b: Seq<u8>)
    ensures
        lower_bytes(a).len() == a.len(),
        forall|i: int| 0 <= i < a.len() ==> !(65 <= #[trigger] lower_bytes(a)[i] <= 90),
        forall|i: int| 0 <= i < a.len() && !(65 <= a[i] <= 90) ==> #[trigger] lower_bytes(a)[i] == a[i],
        same_but_ascii_case(a, lower_bytes(a)),
        same_but_ascii_case(a, b) ==> lower_bytes(a) == lower_bytes(b),
{
    if same_but_ascii_case(a, b) {
        assert(lower_bytes(a) =~= lower_bytes(b));
    }
}

pub fn lower(b: u8) -> (r: u8)
    ensures
        r == lower_byte(b),
{
    if 65 <= b && b <= 90 {
        b + 32
    } else {
        b
    }
}

/// ASCII lowercase copy of a byte string.
pub fn lowercase_bytes(s: &[u8]) -> (r: Vec<u8>)
    ensures
        r@ == lower_bytes(s@),
{
    let mut r: Vec<u8> = Vec::new();
    for i in 0..s.len()
        invariant
            r@ == lower_bytes(s@.take(i as int)),
    {
        r.push(lower(s[i]));
        assert(lower_bytes(s@.take(i + 1)) =~= lower_bytes(s@.take(i as int)).push(lower_byte(s@[i as int])));
    }
    assert(s@.take(s.len() as int) =~= s@);
    r
}

/// Whether `pat` occurs in `s` starting at `at`.
pub fn matches_at(s: &[u8], pat: &[u8], at: usize) -> (b: bool)
    ensures
        b == occurs_at(s@, pat@, at as int),
{
    if at > s.len() || pat.len() > s.len() - at {
        return false;
    }
    let mut k: usize = 0;
    while k < pat.len()
        invariant
            at + pat.len() <= s.len(),
            k <= pat.len(),
            forall|m: int| 0 <= m < k ==> s@[at + m] == pat@[m],
        decreases pat.len() - k,
    {
        if s[at + k] != pat[k] {
            assert(s@.subrange(at as int, at + pat@.len())[k as int] != pat@[k as int]);
            return false;
        }
        k = k + 1;
    }
    assert(s@.subrange(at as int, at + pat@.len()) =~= pat@);
    true
}

/// Whether `pat` occurs anywhere in `s`, as `str::contains` answers for UTF-8 bytes.
pub fn contains_bytes(s: &[u8], pat: &[u8]) -> (b: bool)
    ensures
        b == occurs_in(s@, pat@),
{
    if pat.len() > s.len() {
        assert(forall|at: int| !occurs_at(s@, pat@, at));
        return false;
    }
    let last = s.len() - pat.len();
    let mut at: usize = 0;
    while at < last
        invariant
            last + pat.len() == s.len(),
            at <= last,
            forall|a: int| 0 <= a < at ==> !occurs_at(s@, pat@, a),
        decreases last - at,
    {
        if matches_at(s, pat, at) {
            return true;
        }
        at = at + 1;
    }
    if matches_at(s, pat, last) {
        return true;
    }
    assert forall|a: int| !occurs_at(s@, pat@, a) by {
        if 0 <= a < at {
        }
    }
    false
}

/// Calls `String::push`. Claimed, as std documents: the character is appended.
#[verifier::external_body]
pub(crate) fn push_char(s: &mut String, c: char)
    ensures
        final(s)@ == old(s)@.push(c),
{
    s.push(c);
}

/// Lowercase hexadecimal text of the bytes.
pub fn hex_string(bytes: &[u8]) -> (s: String)
    requires
        bytes.len() <= usize::MAX / 2,
    ensures
        s@ == hex_text(bytes@),
{
    let mut s = String::new();
    for i in 0..bytes.len()
        invariant
            s@ == hex_text(bytes@.take(i as int)),
    {
        let b = bytes[i];
        push_char(&mut s, hex_char(b / 16));
        push_char(&mut s, hex_char(b % 16));
        assert(hex_text(bytes@.take(i + 1)) =~= hex_text(bytes@.take(i as int)).push(
            hex_digit(b as int / 16),
        ).push(hex_digit(b as int % 16)));
    }
    assert(bytes@.take(bytes.len() as int) =~= bytes@);
    s
}

} // verus!
