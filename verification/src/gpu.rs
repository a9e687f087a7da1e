//! Reading the process id out of a GPU engine counter's instance name, such as
//! `pid_1234_luid_0x00000000_0x0000C1F2_phys_0_eng_0_engtype_3D`.
use vstd::prelude::*;
use vstd::string::*;
use crate::text::{lower_bytes, lowercase_bytes, matches_at, occurs_at};

verus! {

/// `pid_`
pub open spec fn pid_marker() -> Seq<u8> {
    seq![112u8, 105, 100, 95]
}

/// The first place at or after `k` where `pat` occurs in `s`.
pub open spec fn find_from(s: Seq<u8>, pat: Seq<u8>, k: int) -> Option<int>
    decreases s.len() + 1 - k,
{
    if k < 0 || k + pat.len() > s.len() {
        None
    } else if occurs_at(s, pat, k) {
        Some(k)
    } else {
        find_from(s, pat, k + 1)
    }
}

/// What precedes the first occurrence of `pat` in `s`: the first piece of `s.split(pat)`.
pub open spec fn first_piece(s: Seq<u8>, pat: Seq<u8>) -> Seq<u8> {
    match find_from(s, pat, 0) {
        Some(i) => s.take(i),
        None => s,
    }
}

/// The text the process id is read from: in the lowercased name, the second piece
/// when split at `pid_`, and of that the first piece when split at `_`.
pub open spec fn pid_text(name: Seq<u8>) -> Option<Seq<u8>> {
    let lower = lower_bytes(name);
    match find_from(lower, pid_marker(), 0) {
        None => None,
        Some(i) => Some(
            first_piece(first_piece(lower.subrange(i + 4, lower.len() as int), pid_marker()), seq![95u8]),
        ),
    }
}

/// The value of a string of decimal digits.
pub open spec fn decimal_value(s: Seq<u8>) -> int
    decreases s.len(),
{
    if s.len() == 0 {
        0
    } else {
        decimal_value(s.drop_last()) * 10 + (s.last() - 48)
    }
}

pub open spec fn all_decimal(s: Seq<u8>) -> bool {
    forall|i: int| 0 <= i < s.len() ==> 48 <= #[trigger] s[i] <= 57
}

/// What `str::parse::<u32>` makes of a text: decimal digits after an optional `+`,
/// at least one, with a value that fits.
pub open spec fn parsed_u32(s: Seq<u8>) -> Option<u32> {
    let digits = if s.len() > 0 && s[0] == 43 {
        s.drop_first()
    } else {
        s
    };
    if digits.len() > 0 && all_decimal(digits) && decimal_value(digits) <= u32::MAX {
        Some(decimal_value(digits) as u32)
    } else {
        None
    }
}

/// The process id named in a counter instance name, if there is one.
pub open spec fn instance_pid(name: Seq<u8>) -> Option<u32> {
    match pid_text(name) {
        Some(t) => parsed_u32(t),
        None => None,
    }
}

fn find(s: &[u8], pat: &[u8]) -> (r: Option<usize>)
    ensures
        match r {
            Some(i) => find_from(s@, pat@, 0) == Some(i as int),
            None => find_from(s@, pat@, 0) is None,
        },
{
    let mut k: usize = 0;
    while k <= s.len() && pat.len() <= s.len() - k
        invariant
            find_from(s@, pat@, 0) == find_from(s@, pat@, k as int),
        decreases s.len() + 1 - k,
    {
        if matches_at(s, pat, k) {
            return Some(k);
        }
        if k == s.len() {
            assert(find_from(s@, pat@, k + 1) is None);
            return None;
        }
        k = k + 1;
    }
    None
}

fn split_off(s: &[u8], from: usize, to: usize) -> (r: &[u8])
    requires
        from <= to <= s.len(),
    ensures
        r@ == s@.subrange(from as int, to as int),
{
    let (head, _) = s.split_at(to);
    let (_, tail) = head.split_at(from);
    tail
}

fn first_piece_of<'a>(s: &'a [u8], pat: &[u8]) -> (r: &'a [u8])
    ensures
        r@ == first_piece(s@, pat@),
{
    match find(s, pat) {
        Some(i) => {
            proof {
                lemma_find_from_in_bounds(s@, pat@, 0);
            }
            split_off(s, 0, i)
        },
        None => s,
    }
}

proof fn lemma_find_from_in_bounds(s: Seq<u8>, pat: Seq<u8>, k: int)
    ensures
        find_from(s, pat, k) matches Some(i) ==> k <= i && i + pat.len() <= s.len(),
    decreases s.len() + 1 - k,
{
    if !(k < 0 || k + pat.len() > s.len()) && !occurs_at(s, pat, k) {
        lemma_find_from_in_bounds(s, pat, k + 1);
    }
}

proof fn lemma_decimal_prefix(s: Seq<u8>, k: int)
    requires
        all_decimal(s),
        0 <= k <= s.len(),
    ensures
        0 <= decimal_value(s.take(k)) <= decimal_value(s),
    decreases s.len(),
{
    if s.len() > 0 {
        if k == s.len() {
            assert(s.take(k) =~= s);
            lemma_decimal_prefix(s.drop_last(), k - 1);
            assert(s.drop_last().take(k - 1) =~= s.drop_last());
        } else {
            lemma_decimal_prefix(s.drop_last(), k);
            assert(s.drop_last().take(k) =~= s.take(k));
            lemma_decimal_prefix(s.drop_last(), s.len() - 1);
            assert(s.drop_last().take(s.len() - 1) =~= s.drop_last());
        }
    }
}

fn parse_decimal(s: &[u8]) -> (r: Option<u32>)
    ensures
        r == parsed_u32(s@),
{
    let digits = if s.len() > 0 && s[0] == 43 {
        split_off(s, 1, s.len())
    } else {
        s
    };
    assert(s.len() > 0 && s@[0] == 43 ==> digits@ =~= s@.drop_first());
    if digits.len() == 0 {
        return None;
    }
    let mut value: u64 = 0;
    let mut k: usize = 0;
    while k < digits.len()
        invariant
            k <= digits.len(),
            digits@ == (if s@.len() > 0 && s@[0] == 43 {
                s@.drop_first()
            } else {
                s@
            }),
            digits.len() > 0,
            forall|i: int| 0 <= i < k ==> 48 <= #[trigger] digits@[i] <= 57,
            value == decimal_value(digits@.take(k as int)),
            value <= u32::MAX,
        decreases digits.len() - k,
    {
        let d = digits[k];
        if d < 48 || d > 57 {
            return None;
        }
        assert(digits@.take(k + 1).drop_last() =~= digits@.take(k as int));
        let next = value * 10 + (d - 48) as u64;
        if next > 0xffff_ffff {
            proof {
                let full = digits@;
                if all_decimal(full) {
                    lemma_decimal_prefix(full, k + 1);
                }
            }
            return None;
        }
        value = next;
        k = k + 1;
    }
    assert(digits@.take(digits.len() as int) =~= digits@);
    Some(value as u32)
}

/// The process id named in a GPU counter instance name.
pub fn parse_pid(instance: &str) -> (pid: Option<u32>)
    ensures
        pid == instance_pid(instance.spec_bytes()),
{
    let lower = lowercase_bytes(instance.as_bytes());
    let marker = vec![112u8, 105, 100, 95];
    assert(marker@ =~= pid_marker());
    match find(lower.as_slice(), marker.as_slice()) {
        None => None,
        Some(i) => {
            proof {
                lemma_find_from_in_bounds(lower@, marker@, 0);
                assert(find_from(lower@, marker@, 0) == Some(i as int));
                assert(i + marker@.len() <= lower@.len());
                assert(marker@.len() == 4);
            }
            let n = lower.len();
            assert(i + 4 <= n);
            let rest = split_off(lower.as_slice(), i + 4, n);
            let seg = first_piece_of(rest, marker.as_slice());
            let underscore = vec![95u8];
            assert(underscore@ =~= seq![95u8]);
            let token = first_piece_of(seg, underscore.as_slice());
            parse_decimal(token)
        },
    }
}

} // verus!
