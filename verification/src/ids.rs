//! Snapshot ids and their text form, and the hexadecimal encoding of digests.
use vstd::prelude::*;
use vstd::string::*;
use vstd::arithmetic::power2::pow2;

verus! {

/// The lowercase hexadecimal digit of `n`, for `0 <= n < 16`.
pub open spec fn hex_digit(n: int) -> char {
    if n < 10 {
        (48 + n) as char
    } else {
        (87 + n) as char
    }
}

/// Lowercase hexadecimal: two digits per byte, high nibble first.
pub open spec fn hex_text(bytes: Seq<u8>) -> Seq<char> {
    Seq::new(
        2 * bytes.len(),
        |i: int|
            if i % 2 == 0 {
                hex_digit(bytes[i / 2] as int / 16)
            } else {
                hex_digit(bytes[i / 2] as int % 16)
            },
    )
}

/// Whether a character is a lowercase hexadecimal digit: `0`-`9` or `a`-`f`.
pub open spec fn is_lower_hex(c: char) -> bool {
    ('0' <= c <= '9') || ('a' <= c <= 'f')
}

/// Hexadecimal text is two lowercase hexadecimal digits per byte.
pub proof fn lemma_hex_text_digits(bytes: Seq<u8>)
    ensures
        hex_text(bytes).len() == 2 * bytes.len(),
        forall|i: int| 0 <= i < hex_text(bytes).len() ==> is_lower_hex(#[trigger] hex_text(bytes)[i]),
{
    assert forall|i: int| 0 <= i < hex_text(bytes).len() implies is_lower_hex(#[trigger] hex_text(bytes)[i]) by {
        let b = bytes[i / 2] as int;
        assert(0 <= b / 16 < 16);
        assert(0 <= b % 16 < 16);
    }
}

pub fn hex_char(n: u8) -> (c: char)
    requires
        n < 16,
    ensures
        c == hex_digit(n as int),
{
    if n < 10 {
        (n + 48) as char
    } else {
        (n + 87) as char
    }
}

/// The 32 hexadecimal digits of an id, most significant first.
pub open spec fn id_digits(id: u128) -> Seq<char> {
    Seq::new(32, |k: int| hex_digit(((id as nat / pow2((4 * (31 - k)) as nat)) % 16) as int))
}

/// The hyphenated form of an id: 8-4-4-4-12 lowercase hexadecimal digits.
pub open spec fn uuid_text(id: u128) -> Seq<char> {
    let d = id_digits(id);
    d.subrange(0, 8) + seq!['-'] + d.subrange(8, 12) + seq!['-'] + d.subrange(12, 16) + seq!['-']
        + d.subrange(16, 20) + seq!['-'] + d.subrange(20, 32)
}

/// What `uuid::Uuid::parse_str` makes of a text, as the id's 128-bit big-endian value.
pub uninterp spec fn uuid_parsed(text: Seq<char>) -> Option<u128>;

/// Calls `uuid::Uuid::parse_str`. Claimed: the result is `uuid_parsed` of the text, and
/// the hyphenated form of an id, which the crate's docs list among the accepted
/// formats, parses back to that id.
#[verifier::external_body]
fn uuid_parse(text: &str) -> (r: Option<u128>)
    ensures
        r == uuid_parsed(text@),
        forall|id: u128| text@ == uuid_text(id) ==> r == Some(id),
{
    match uuid::Uuid::parse_str(text) {
        Ok(id) => Some(id.as_u128()),
        Err(_) => None,
    }
}

/// Calls `uuid::Uuid::from_u128` and its `Display`. Claimed: the text is the
/// hyphenated lowercase form of the id's big-endian bytes.
#[verifier::external_body]
fn uuid_string(id: u128) -> (r: String)
    ensures
        r@ == uuid_text(id),
{
    uuid::Uuid::from_u128(id).to_string()
}

/// Whether an id is a random one as RFC 9562 lays it out: version nibble 4, variant bits 10.
pub open spec fn is_random_uuid(id: u128) -> bool {
    &&& (id as nat / pow2(76)) % 16 == 4
    &&& (id as nat / pow2(62)) % 4 == 2
}

/// Calls `uuid::Uuid::new_v4`. Claimed, as the crate's source shows (it masks random
/// bits and sets the version and variant): the id is a random version-4 id. Nothing
/// else is claimed of its value. The crate panics only when the operating system
/// yields no random bytes; on Windows 10 and later its source, `ProcessPrng`, does
/// not fail.
#[verifier::external_body]
pub(crate) fn random_id() -> (r: u128)
    ensures
        is_random_uuid(r),
{
    uuid::Uuid::new_v4().as_u128()
}

/// A fresh random id, for a new snapshot or machine: a version-4 id.
pub fn new_id() -> (id: u128)
    ensures
        is_random_uuid(id),
{
    random_id()
}

/// Unicode's White_Space property, which `char::is_whitespace` tests.
pub open spec fn is_white_space(c: char) -> bool {
    let n = c as u32;
    ||| 9 <= n <= 13
    ||| n == 32
    ||| n == 0x85
    ||| n == 0xa0
    ||| n == 0x1680
    ||| 0x2000 <= n <= 0x200a
    ||| n == 0x2028
    ||| n == 0x2029
    ||| n == 0x202f
    ||| n == 0x205f
    ||| n == 0x3000
}

pub open spec fn trim_front(s: Seq<char>) -> Seq<char>
    decreases s.len(),
{
    if s.len() > 0 && is_white_space(s[0]) {
        trim_front(s.drop_first())
    } else {
        s
    }
}

pub open spec fn trim_back(s: Seq<char>) -> Seq<char>
    decreases s.len(),
{
    if s.len() > 0 && is_white_space(s.last()) {
        trim_back(s.drop_last())
    } else {
        s
    }
}

/// The text without leading and trailing white space, as `str::trim` gives it.
pub open spec fn trimmed(s: Seq<char>) -> Seq<char> {
    trim_back(trim_front(s))
}

fn white_space(c: char) -> (b: bool)
    ensures
        b == is_white_space(c),
{
    let n = c as u32;
    (9 <= n && n <= 13) || n == 32 || n == 0x85 || n == 0xa0 || n == 0x1680 || (0x2000 <= n && n
        <= 0x200a) || n == 0x2028 || n == 0x2029 || n == 0x202f || n == 0x205f || n == 0x3000
}

/// Removes leading and trailing white space.
pub fn trim_text(s: &str) -> (t: &str)
    ensures
        t@ == trimmed(s@),
{
    let n = s.unicode_len();
    let mut i: usize = 0;
    assert(s@.subrange(0, n as int) =~= s@);
    while i < n && white_space(s.get_char(i))
        invariant
            n == s@.len(),
            i <= n,
            trim_front(s@) == trim_front(s@.subrange(i as int, n as int)),
        decreases n - i,
    {
        assert(s@.subrange(i as int, n as int).drop_first() =~= s@.subrange(i + 1, n as int));
        i = i + 1;
    }
    assert(trim_front(s@.subrange(i as int, n as int)) == s@.subrange(i as int, n as int));
    let mut j: usize = n;
    while j > i && white_space(s.get_char(j - 1))
        invariant
            n == s@.len(),
            i <= j <= n,
            trim_back(s@.subrange(i as int, n as int)) == trim_back(s@.subrange(i as int, j as int)),
        decreases j,
    {
        assert(s@.subrange(i as int, j as int).drop_last() =~= s@.subrange(i as int, j - 1));
        j = j - 1;
    }
    s.substring_char(i, j)
}

proof fn lemma_uuid_text_is_trimmed(id: u128)
    ensures
        trimmed(uuid_text(id)) == uuid_text(id),
{
    let t = uuid_text(id);
    let d = id_digits(id);
    assert(t.len() == 36);
    assert(t[0] == d[0]);
    assert(t[35] == d[31]);
    assert(!is_white_space(t[0]));
    assert(!is_white_space(t.last()));
}

/// The text form of an id, as stored in HEAD files, the machine id file and snapshot names.
pub fn id_text(id: u128) -> (s: String)
    ensures
        s@ == uuid_text(id),
{
    uuid_string(id)
}

/// Reads an id from a text, ignoring surrounding white space. The text form of an id
/// reads back as that id.
pub fn parse_id_text(text: &str) -> (r: Option<u128>)
    ensures
        r == uuid_parsed(trimmed(text@)),
        forall|id: u128| trimmed(text@) == uuid_text(id) ==> r == Some(id),
        forall|id: u128| text@ == uuid_text(id) ==> r == Some(id),
{
    let t = trim_text(text);
    let r = uuid_parse(t);
    proof {
        assert forall|id: u128| text@ == uuid_text(id) implies r == Some(id) by {
            lemma_uuid_text_is_trimmed(id);
        }
    }
    r
}

} // verus!
