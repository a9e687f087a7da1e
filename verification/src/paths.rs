//! Which file paths can hold saves, and the keys files are recorded under.
//!
//! Paths are Windows paths: `\` and `/` both separate components, except in
//! verbatim `\\?\` paths, where only `\` does; a leading prefix (a drive such as
//! `C:`, a UNC share `\\server\share`, a device or verbatim prefix) is not part of
//! any component. All tests are on the bytes of the path's UTF-8 text, as
//! `str::contains` and `str::to_ascii_lowercase` work.
use vstd::prelude::*;
use vstd::string::*;
use crate::text::{contains_bytes, lower_bytes, lowercase_bytes, occurs_in};

verus! {

/// The text segments whose presence makes a path a save candidate or rule it out:
/// `\users\` is required; caches, temporary files, logs and crash dumps are not saves.
pub open spec fn users_segment() -> Seq<u8> {
    seq![92u8, 117, 115, 101, 114, 115, 92]  // \users\

}

pub open spec fn excluded_segments() -> Seq<Seq<u8>> {
    seq![
        seq![92u8, 97, 112, 112, 100, 97, 116, 97, 92, 108, 111, 99, 97, 108, 92, 116, 101, 109, 112, 92],  // \appdata\local\temp\
        seq![92u8, 99, 97, 99, 104, 101, 92],  // \cache\
        seq![92u8, 99, 97, 99, 104, 101, 115, 92],  // \caches\
        seq![92u8, 115, 104, 97, 100, 101, 114, 99, 97, 99, 104, 101, 92],  // \shadercache\
        seq![92u8, 115, 104, 97, 100, 101, 114, 95, 99, 97, 99, 104, 101, 92],  // \shader_cache\
        seq![92u8, 108, 111, 103, 115, 92],  // \logs\
        seq![92u8, 99, 114, 97, 115, 104, 100, 117, 109, 112, 115, 92],  // \crashdumps\
    ]
}

/// File extensions of logs, temporary files, dumps and event traces.
pub open spec fn excluded_extensions() -> Seq<Seq<u8>> {
    seq![
        seq![108u8, 111, 103],  // log
        seq![116u8, 109, 112],  // tmp
        seq![100u8, 109, 112],  // dmp
        seq![101u8, 116, 108],  // etl
    ]
}

/// Whether `b` separates components: `\` always, and `/` except in `\\?\` paths.
pub open spec fn is_separator(b: u8, verbatim: bool) -> bool {
    b == 92 || (!verbatim && b == 47)
}

pub open spec fn is_ascii_letter(b: u8) -> bool {
    (65 <= b <= 90) || (97 <= b <= 122)
}

/// Whether `pat` stands in `b` at `at`.
pub open spec fn stands_at(b: Seq<u8>, at: int, pat: Seq<u8>) -> bool {
    0 <= at && at + pat.len() <= b.len() && b.subrange(at, at + pat.len()) == pat
}

/// The end of the component that starts at `k`: the first separator at or after `k`,
/// or the end of `b`.
pub open spec fn component_end(b: Seq<u8>, k: int, verbatim: bool) -> int
    decreases b.len() - k,
{
    if k < 0 || k >= b.len() {
        b.len() as int
    } else if is_separator(b[k], verbatim) {
        k
    } else {
        component_end(b, k + 1, verbatim)
    }
}

/// The prefix of a Windows path, as `std::path::Prefix` reads it: its length, and
/// whether it is a verbatim (`\\?\`) one. `\\?\UNC\server\share`, `\\?\C:`,
/// `\\?\name`, `\\.\device`, `\\server\share` and `C:` are prefixes.
pub open spec fn path_prefix(b: Seq<u8>) -> (int, bool) {
    if stands_at(b, 0, seq![92u8, 92]) {
        if stands_at(b, 2, seq![63u8, 92]) {
            if stands_at(b, 4, seq![85u8, 78, 67, 92]) {
                // \\?\UNC\server\share
                let server_end = component_end(b, 8, true);
                if server_end >= b.len() {
                    (server_end, true)
                } else {
                    let share_end = component_end(b, server_end + 1, true);
                    if share_end > server_end + 1 {
                        (share_end, true)
                    } else {
                        (server_end, true)
                    }
                }
            } else {
                let end = component_end(b, 4, true);
                if end - 4 >= 2 && is_ascii_letter(b[4]) && b[5] == 58 && (end - 4 == 2
                    || is_separator(b[6], false)) {
                    // \\?\C:
                    (6, true)
                } else {
                    // \\?\name
                    (end, true)
                }
            }
        } else if stands_at(b, 2, seq![46u8, 92]) {
            // \\.\device
            (component_end(b, 4, false), false)
        } else {
            let server_end = component_end(b, 2, false);
            if server_end > 2 && server_end < b.len() && component_end(b, server_end + 1, false)
                > server_end + 1 {
                // \\server\share
                (component_end(b, server_end + 1, false), false)
            } else {
                (0, false)
            }
        }
    } else if b.len() >= 2 && is_ascii_letter(b[0]) && b[1] == 58 {
        // C:
        (2, false)
    } else {
        (0, false)
    }
}

/// Where the component that ends at `end` begins: just after the separator before it,
/// or at `start`.
pub open spec fn segment_start(b: Seq<u8>, start: int, end: int, verbatim: bool) -> int
    decreases end - start,
{
    if end <= start {
        start
    } else if is_separator(b[end - 1], verbatim) {
        end
    } else {
        segment_start(b, start, end - 1, verbatim)
    }
}

/// The span of the last component of `b[start..end]`, as `Path::file_name` finds it:
/// trailing separators are passed over, so are `.` components outside verbatim paths,
/// while in them `.` has no name; `..` has no name.
pub open spec fn name_span(b: Seq<u8>, start: int, end: int, verbatim: bool) -> Option<(int, int)>
    decreases end - start,
{
    if end <= start {
        None
    } else if is_separator(b[end - 1], verbatim) {
        name_span(b, start, end - 1, verbatim)
    } else {
        let j = segment_start(b, start, end, verbatim);
        if j < start || j >= end {
            None
        } else if b.subrange(j, end) == seq![46u8] {
            if verbatim {
                None
            } else {
                name_span(b, start, j, verbatim)
            }
        } else if b.subrange(j, end) == seq![46u8, 46u8] {
            None
        } else {
            Some((j, end))
        }
    }
}

/// The index of the last `.` among the first `k` bytes, or -1.
pub open spec fn last_dot(s: Seq<u8>, k: int) -> int
    decreases k,
{
    if k <= 0 {
        -1
    } else if s[k - 1] == 46 {
        k - 1
    } else {
        last_dot(s, k - 1)
    }
}

/// The extension of a file name, as `Path::extension` gives it: what follows the last
/// `.`, unless there is none or the name starts with it.
pub open spec fn name_extension(name: Seq<u8>) -> Option<Seq<u8>> {
    let i = last_dot(name, name.len() as int);
    if i <= 0 {
        None
    } else {
        Some(name.subrange(i + 1, name.len() as int))
    }
}

/// The extension of a path.
pub open spec fn path_extension(b: Seq<u8>) -> Option<Seq<u8>> {
    let (start, verbatim) = path_prefix(b);
    match name_span(b, start, b.len() as int, verbatim) {
        None => None,
        Some(span) => name_extension(b.subrange(span.0, span.1)),
    }
}

/// Whether a path can hold a save: it lies under a user profile, not in a cache,
/// temporary, log or crash-dump folder, and is not a log, temporary, dump or trace file.
pub open spec fn candidate_path(b: Seq<u8>) -> bool {
    let lower = lower_bytes(b);
    &&& occurs_in(lower, users_segment())
    &&& forall|k: int| 0 <= k < 7 ==> !occurs_in(lower, #[trigger] excluded_segments()[k])
    &&& !(path_extension(b) matches Some(ext) && excluded_extensions().contains(lower_bytes(ext)))
}

fn excluded_segment(k: usize) -> (p: Vec<u8>)
    requires
        k < 7,
    ensures
        p@ == excluded_segments()[k as int],
{
    let p = match k {
        0 => vec![92u8, 97, 112, 112, 100, 97, 116, 97, 92, 108, 111, 99, 97, 108, 92, 116, 101, 109, 112, 92],
        1 => vec![92u8, 99, 97, 99, 104, 101, 92],
        2 => vec![92u8, 99, 97, 99, 104, 101, 115, 92],
        3 => vec![92u8, 115, 104, 97, 100, 101, 114, 99, 97, 99, 104, 101, 92],
        4 => vec![92u8, 115, 104, 97, 100, 101, 114, 95, 99, 97, 99, 104, 101, 92],
        5 => vec![92u8, 108, 111, 103, 115, 92],
        _ => vec![92u8, 99, 114, 97, 115, 104, 100, 117, 109, 112, 115, 92],
    };
    assert(p@ =~= excluded_segments()[k as int]);
    p
}

fn separator(b: u8, verbatim: bool) -> (r: bool)
    ensures
        r == is_separator(b, verbatim),
{
    b == 92 || (!verbatim && b == 47)
}

fn ascii_letter(b: u8) -> (r: bool)
    ensures
        r == is_ascii_letter(b),
{
    (65 <= b && b <= 90) || (97 <= b && b <= 122)
}

fn end_of_component(b: &[u8], k: usize, verbatim: bool) -> (e: usize)
    ensures
        e == component_end(b@, k as int, verbatim),
        k <= b.len() ==> k <= e <= b.len(),
        k > b.len() ==> e == b.len(),
{
    if k >= b.len() {
        return b.len();
    }
    let mut e = k;
    while e < b.len() && !separator(b[e], verbatim)
        invariant
            k <= e <= b.len(),
            component_end(b@, k as int, verbatim) == component_end(b@, e as int, verbatim),
        decreases b.len() - e,
    {
        e = e + 1;
    }
    e
}

fn stands(b: &[u8], at: usize, pat: &[u8]) -> (r: bool)
    ensures
        r == stands_at(b@, at as int, pat@),
{
    if at > b.len() || pat.len() > b.len() - at {
        return false;
    }
    let mut k: usize = 0;
    while k < pat.len()
        invariant
            at + pat.len() <= b.len(),
            k <= pat.len(),
            forall|m: int| 0 <= m < k ==> b@[at + m] == pat@[m],
        decreases pat.len() - k,
    {
        if b[at + k] != pat[k] {
            assert(b@.subrange(at as int, at + pat@.len())[k as int] != pat@[k as int]);
            return false;
        }
        k = k + 1;
    }
    assert(b@.subrange(at as int, at + pat@.len()) =~= pat@);
    true
}

fn prefix_of(b: &[u8]) -> (r: (usize, bool))
    ensures
        r.0 as int == path_prefix(b@).0,
        r.1 == path_prefix(b@).1,
        r.0 <= b.len(),
{
    let two_back = [92u8, 92];
    let query = [63u8, 92];
    let unc = [85u8, 78, 67, 92];
    let device = [46u8, 92];
    assert(two_back@ =~= seq![92u8, 92]);
    assert(query@ =~= seq![63u8, 92]);
    assert(unc@ =~= seq![85u8, 78, 67, 92]);
    assert(device@ =~= seq![46u8, 92]);
    if stands(b, 0, two_back.as_slice()) {
        if stands(b, 2, query.as_slice()) {
            if stands(b, 4, unc.as_slice()) {
                let server_end = end_of_component(b, 8, true);
                if server_end >= b.len() {
                    (server_end, true)
                } else {
                    let share_end = end_of_component(b, server_end + 1, true);
                    if share_end > server_end + 1 {
                        (share_end, true)
                    } else {
                        (server_end, true)
                    }
                }
            } else {
                let end = end_of_component(b, 4, true);
                if end - 4 >= 2 && ascii_letter(b[4]) && b[5] == 58 && (end - 4 == 2 || separator(
                    b[6],
                    false,
                )) {
                    (6, true)
                } else {
                    (end, true)
                }
            }
        } else if stands(b, 2, device.as_slice()) {
            (end_of_component(b, 4, false), false)
        } else {
            let server_end = end_of_component(b, 2, false);
            if server_end > 2 && server_end < b.len() {
                let share_end = end_of_component(b, server_end + 1, false);
                if share_end > server_end + 1 {
                    (share_end, false)
                } else {
                    (0, false)
                }
            } else {
                (0, false)
            }
        }
    } else if b.len() >= 2 && ascii_letter(b[0]) && b[1] == 58 {
        (2, false)
    } else {
        (0, false)
    }
}

fn component_start(b: &[u8], start: usize, end: usize, verbatim: bool) -> (j: usize)
    requires
        start < end <= b.len(),
        !is_separator(b@[end - 1], verbatim),
    ensures
        j == segment_start(b@, start as int, end as int, verbatim),
        start <= j < end,
{
    let mut j = end - 1;
    while j > start && !separator(b[j - 1], verbatim)
        invariant
            start <= j < end <= b.len(),
            segment_start(b@, start as int, end as int, verbatim) == segment_start(
                b@,
                start as int,
                j as int,
                verbatim,
            ),
        decreases j,
    {
        j = j - 1;
    }
    j
}

fn file_name_span(b: &[u8], start: usize, verbatim: bool) -> (r: Option<(usize, usize)>)
    requires
        start <= b.len(),
    ensures
        match r {
            None => name_span(b@, start as int, b.len() as int, verbatim) is None,
            Some(span) => name_span(b@, start as int, b.len() as int, verbatim) == Some(
                (span.0 as int, span.1 as int),
            ) && start <= span.0 < span.1 <= b.len(),
        },
{
    let mut end = b.len();
    loop
        invariant
            start <= end <= b.len(),
            name_span(b@, start as int, b.len() as int, verbatim) == name_span(
                b@,
                start as int,
                end as int,
                verbatim,
            ),
        decreases end,
    {
        if end <= start {
            return None;
        }
        if separator(b[end - 1], verbatim) {
            end = end - 1;
            continue;
        }
        let j = component_start(b, start, end, verbatim);
        if end - j == 1 && b[j] == 46 {
            assert(b@.subrange(j as int, end as int) =~= seq![46u8]);
            if verbatim {
                return None;
            }
            end = j;
            continue;
        }
        if end - j == 2 && b[j] == 46 && b[j + 1] == 46 {
            assert(b@.subrange(j as int, end as int) =~= seq![46u8, 46u8]);
            return None;
        }
        let ghost name = b@.subrange(j as int, end as int);
        assert(name != seq![46u8]) by {
            if name == seq![46u8] {
                assert(name.len() == 1 && name[0] == 46u8);
            }
        }
        assert(name != seq![46u8, 46u8]) by {
            if name == seq![46u8, 46u8] {
                assert(name.len() == 2 && name[0] == 46u8 && name[1] == 46u8);
            }
        }
        return Some((j, end));
    }
}

fn split_off(s: &[u8], from: usize, to: usize) -> (r: &[u8])
    requires
        from <= to <= s.len(),
    ensures
        r@ == s@.subrange(from as int, to as int),
{
    let (head, _) = s.split_at(to);
    let (_, tail) = head.split_at(from);
    tail
}

fn extension_of(name: &[u8]) -> (r: Option<&[u8]>)
    ensures
        match r {
            None => name_extension(name@) is None,
            Some(ext) => name_extension(name@) == Some(ext@),
        },
{
    let mut k = name.len();
    while k > 0 && name[k - 1] != 46
        invariant
            k <= name.len(),
            last_dot(name@, name.len() as int) == last_dot(name@, k as int),
        decreases k,
    {
        k = k - 1;
    }
    // k == 0 when there is no dot; otherwise the dot is at k - 1
    if k <= 1 {
        None
    } else {
        Some(split_off(name, k, name.len()))
    }
}

fn is_excluded_extension(ext: &[u8]) -> (r: bool)
    ensures
        r == excluded_extensions().contains(lower_bytes(ext@)),
{
    let lower = lowercase_bytes(ext);
    let ghost all = excluded_extensions();
    if lower.len() != 3 {
        assert forall|k: int| 0 <= k < 4 implies all[k] != lower@ by {
            assert(all[k].len() == 3);
        }
        return false;
    }
    let (a, b, c) = (lower[0], lower[1], lower[2]);
    let r = (a == 108 && b == 111 && c == 103) || (a == 116 && b == 109 && c == 112) || (a == 100
        && b == 109 && c == 112) || (a == 101 && b == 116 && c == 108);
    proof {
        if r {
            if a == 108 && b == 111 && c == 103 {
                assert(lower@ =~= all[0]);
            } else if a == 116 && b == 109 && c == 112 {
                assert(lower@ =~= all[1]);
            } else if a == 100 {
                assert(lower@ =~= all[2]);
            } else {
                assert(lower@ =~= all[3]);
            }
            assert(all.contains(lower@));
        } else {
            assert forall|k: int| 0 <= k < 4 implies all[k] != lower@ by {
                assert(all[k][0] != lower@[0] || all[k][1] != lower@[1] || all[k][2] != lower@[2]);
            }
        }
    }
    r
}

/// Whether a path can hold a save (see `candidate_path`).
pub fn is_candidate_path(path: &str) -> (r: bool)
    ensures
        r == candidate_path(path.spec_bytes()),
{
    let bytes = path.as_bytes();
    let lower = lowercase_bytes(bytes);
    let users = vec![92u8, 117, 115, 101, 114, 115, 92];
    assert(users@ =~= users_segment());
    if !contains_bytes(lower.as_slice(), users.as_slice()) {
        return false;
    }
    let mut k: usize = 0;
    while k < 7
        invariant
            k <= 7,
            bytes@ == path.spec_bytes(),
            lower@ == lower_bytes(bytes@),
            forall|m: int| 0 <= m < k ==> !occurs_in(lower@, #[trigger] excluded_segments()[m]),
        decreases 7 - k,
    {
        let seg = excluded_segment(k);
        if contains_bytes(lower.as_slice(), seg.as_slice()) {
            assert(occurs_in(lower@, excluded_segments()[k as int]));
            return false;
        }
        k = k + 1;
    }
    let (start, verbatim) = prefix_of(bytes);
    match file_name_span(bytes, start, verbatim) {
        None => true,
        Some((j, e)) => {
            let name = split_off(bytes, j, e);
            match extension_of(name) {
                None => true,
                Some(ext) => !is_excluded_extension(ext),
            }
        },
    }
}

/// The key a touched file is recorded under: its resolved path where the file
/// system could resolve it, the path as given otherwise.
pub fn canonical_key(path: &str, resolved: Option<String>) -> (key: String)
    ensures
        key@ == match resolved {
            Some(r) => r@,
            None => path@,
        },
{
    match resolved {
        Some(r) => r,
        None => path.to_owned(),
    }
}

} // verus!
