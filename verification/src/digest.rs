//! Content hashing with BLAKE3: blob names and game keys.
use vstd::prelude::*;
use vstd::string::*;
use crate::ids::{hex_text, is_lower_hex, lemma_hex_text_digits};
use crate::text::{hex_string, lemma_lowercase_folds_capitals, lower_bytes, lowercase_bytes, same_but_ascii_case};

verus! {

#[verifier::external_type_specification]
#[verifier::external_body]
pub struct ExHasher(blake3::Hasher);

/// The 32-byte BLAKE3 hash of a byte string.
pub uninterp spec fn blake3_digest(data: Seq<u8>) -> Seq<u8>;

/// Calls `blake3::hash`. Claimed: the 32 bytes of the hash of `data`.
#[verifier::external_body]
fn blake3_hash(data: &[u8]) -> (r: Vec<u8>)
    ensures
        r@ == blake3_digest(data@),
        r@.len() == 32,
{
    blake3::hash(data).as_bytes().to_vec()
}

/// An incremental BLAKE3 hasher that remembers, for the proofs, what it was fed.
pub struct BlobHasher {
    inner: blake3::Hasher,
    fed: Ghost<Seq<u8>>,
}

impl BlobHasher {
    /// The bytes fed so far.
    pub closed spec fn input(&self) -> Seq<u8> {
        self.fed@
    }
}

/// Calls `blake3::Hasher::new`. Claimed: a hasher that has been fed nothing.
#[verifier::external_body]
fn hasher_new() -> (h: BlobHasher)
    ensures
        h.input() == Seq::<u8>::empty(),
{
    BlobHasher { inner: blake3::Hasher::new(), fed: Ghost(Seq::empty()) }
}

/// Calls `blake3::Hasher::update`. Claimed: the chunk is appended to the input. A
/// hasher made by `Hasher::new` starts at offset 0, where `update` sets no limit.
#[verifier::external_body]
fn hasher_update(h: &mut BlobHasher, chunk: &[u8])
    ensures
        final(h).input() == old(h).input() + chunk@,
{
    h.inner.update(chunk);
}

/// Calls `blake3::Hasher::finalize`. Claimed, as the crate documents: the hash of all
/// the input, the same as `blake3::hash` of it.
#[verifier::external_body]
fn hasher_finalize(h: &BlobHasher) -> (r: Vec<u8>)
    ensures
        r@ == blake3_digest(h.input()),
        r@.len() == 32,
{
    h.inner.finalize().as_bytes().to_vec()
}

impl BlobHasher {
    pub fn new() -> (h: Self)
        ensures
            h.input() == Seq::<u8>::empty(),
    {
        hasher_new()
    }

    /// Feeds the next chunk of the content.
    pub fn update(&mut self, chunk: &[u8])
        ensures
            final(self).input() == old(self).input() + chunk@,
    {
        hasher_update(self, chunk)
    }

    /// The blob name of the content fed so far: its hash in lowercase hexadecimal.
    pub fn hex_digest(&self) -> (s: String)
        ensures
            s@ == hex_text(blake3_digest(self.input())),
            s@.len() == 64,
            forall|i: int| 0 <= i < 64 ==> is_lower_hex(#[trigger] s@[i]),
    {
        let d = hasher_finalize(self);
        proof {
            lemma_hex_text_digits(d@);
        }
        hex_string(d.as_slice())
    }
}

/// The blob name of a byte string: its hash in lowercase hexadecimal.
pub fn content_hash(data: &[u8]) -> (s: String)
    ensures
        s@ == hex_text(blake3_digest(data@)),
        s@.len() == 64,
        forall|i: int| 0 <= i < 64 ==> is_lower_hex(#[trigger] s@[i]),
{
    let d = blake3_hash(data);
    proof {
        lemma_hex_text_digits(d@);
    }
    hex_string(d.as_slice())
}

/// The key of a game: the first 16 hexadecimal digits of the hash of the
/// lowercased executable path.
pub open spec fn game_key_of(exe: Seq<u8>) -> Seq<char> {
    hex_text(blake3_digest(lower_bytes(exe))).take(16)
}

/// A game's key, from the text of its executable's path.
pub fn game_key(exe: &str) -> (key: String)
    ensures
        key@ == game_key_of(exe.spec_bytes()),
        key@.len() == 16,
        forall|i: int| 0 <= i < 16 ==> is_lower_hex(#[trigger] key@[i]),
{
    let lowered = lowercase_bytes(exe.as_bytes());
    let d = blake3_hash(lowered.as_slice());
    proof {
        lemma_hex_text_digits(d@);
    }
    let head = slice_prefix(d.as_slice(), 8);
    let key = hex_string(head);
    assert(hex_text(d@).take(16) =~= hex_text(d@.take(8)));
    key
}

fn slice_prefix(s: &[u8], n: usize) -> (r: &[u8])
    requires
        n <= s.len(),
    ensures
        r@ == s@.take(n as int),
{
    let (head, _) = s.split_at(n);
    head
}

/// Paths that differ only in the ASCII case of their letters give the same game key.
pub proof fn lemma_game_key_same_for_any_case(a: Seq<u8>, b: Seq<u8>)
    requires
        same_but_ascii_case(a, b),
    ensures
        game_key_of(a) == game_key_of(b),
{
    lemma_lowercase_folds_capitals(a, b);
}

/// A game's key does not depend on the ASCII case of its executable's path.
pub proof fn lemma_game_key_ignores_case(a: Seq<u8>, b: Seq<u8>)
    requires
        lower_bytes(a) == lower_bytes(b),
    ensures
        game_key_of(a) == game_key_of(b),
{
}

} // verus!
