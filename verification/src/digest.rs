//! Content digests: 256-bit BLAKE3 values held as four 64-bit words,
//! together with the typed hashes built on them.

use vstd::prelude::*;

use crate::keyed::EqKey;

verus! {

/// A 256-bit content digest, stored little-endian as four 64-bit words:
/// `w0` holds bytes 0..8 of the raw digest, `w1` bytes 8..16, and so on.
#[derive(Clone, Copy, PartialEq, Eq, Structural, Hash, Debug)]
pub struct Digest {
    pub w0: u64,
    pub w1: u64,
    pub w2: u64,
    pub w3: u64,
}

/// The BLAKE3 digest of a byte string, as the 32 raw digest bytes.
/// The value is determined by the input bytes alone.
pub uninterp spec fn blake3_of(input: Seq<u8>) -> Seq<u8>;

/// Relies on `blake3::hash`: the digest is a function of the input bytes
/// alone and is always 32 bytes long.
#[verifier::external_body]
fn blake3_hash_raw(input: &[u8]) -> (r: Vec<u8>)
    ensures
        r@ == blake3_of(input@),
        r@.len() == 32,
{
    blake3::hash(input).as_bytes().to_vec()
}

/// The little-endian 64-bit word packed from `s[8*i .. 8*i + 8]`.
pub open spec fn word_of_bytes(s: Seq<u8>, i: int) -> u64 {
    (s[8 * i] as u64)
        | (s[8 * i + 1] as u64) << 8
        | (s[8 * i + 2] as u64) << 16
        | (s[8 * i + 3] as u64) << 24
        | (s[8 * i + 4] as u64) << 32
        | (s[8 * i + 5] as u64) << 40
        | (s[8 * i + 6] as u64) << 48
        | (s[8 * i + 7] as u64) << 56
}

/// The digest value packed from 32 raw bytes.
pub open spec fn digest_of_bytes(s: Seq<u8>) -> Digest {
    Digest {
        w0: word_of_bytes(s, 0),
        w1: word_of_bytes(s, 1),
        w2: word_of_bytes(s, 2),
        w3: word_of_bytes(s, 3),
    }
}

/// The BLAKE3 digest of a byte string, in packed form.
pub open spec fn blake3_digest(input: Seq<u8>) -> Digest {
    digest_of_bytes(blake3_of(input))
}

fn pack_word(s: &[u8], base: usize) -> (w: u64)
    requires
        base + 8 <= s@.len(),
    ensures
        w == (s@[base as int] as u64)
            | (s@[base as int + 1] as u64) << 8
            | (s@[base as int + 2] as u64) << 16
            | (s@[base as int + 3] as u64) << 24
            | (s@[base as int + 4] as u64) << 32
            | (s@[base as int + 5] as u64) << 40
            | (s@[base as int + 6] as u64) << 48
            | (s@[base as int + 7] as u64) << 56,
{
    (s[base] as u64)
        | (s[base + 1] as u64) << 8
        | (s[base + 2] as u64) << 16
        | (s[base + 3] as u64) << 24
        | (s[base + 4] as u64) << 32
        | (s[base + 5] as u64) << 40
        | (s[base + 6] as u64) << 48
        | (s[base + 7] as u64) << 56
}

/// Packs 32 raw digest bytes into the word form.
pub fn digest_from_bytes(s: &[u8]) -> (d: Digest)
    requires
        s@.len() == 32,
    ensures
        d == digest_of_bytes(s@),
{
    let d = Digest {
        w0: pack_word(s, 0),
        w1: pack_word(s, 8),
        w2: pack_word(s, 16),
        w3: pack_word(s, 24),
    };
    d
}

/// Hashes a byte string with BLAKE3 and packs the digest.
pub fn hash_bytes(input: &[u8]) -> (d: Digest)
    ensures
        d == blake3_digest(input@),
{
    let raw = blake3_hash_raw(input);
    digest_from_bytes(raw.as_slice())
}

/// Byte `j` of the little-endian encoding of a word.
pub open spec fn byte_of_word(w: u64, j: int) -> u8 {
    (w >> (8 * j)) as u8
}

/// The eight little-endian bytes of a word.
pub open spec fn bytes_of_word(w: u64) -> Seq<u8> {
    Seq::new(8, |j: int| byte_of_word(w, j))
}

/// The 32 raw bytes of a digest, little-endian word by word.
pub open spec fn bytes_of_digest(d: Digest) -> Seq<u8> {
    bytes_of_word(d.w0) + bytes_of_word(d.w1) + bytes_of_word(d.w2) + bytes_of_word(d.w3)
}

/// Appends the eight little-endian bytes of `w`.
pub fn push_word_bytes(out: &mut Vec<u8>, w: u64)
    ensures
        final(out)@ == old(out)@ + bytes_of_word(w),
{
    out.push(#[verifier::truncate] (w as u8));
    out.push(#[verifier::truncate] ((w >> 8) as u8));
    out.push(#[verifier::truncate] ((w >> 16) as u8));
    out.push(#[verifier::truncate] ((w >> 24) as u8));
    out.push(#[verifier::truncate] ((w >> 32) as u8));
    out.push(#[verifier::truncate] ((w >> 40) as u8));
    out.push(#[verifier::truncate] ((w >> 48) as u8));
    out.push(#[verifier::truncate] ((w >> 56) as u8));
    proof {
        assert(w >> 0 == w) by (bit_vector);
        assert(out@ =~= old(out)@ + bytes_of_word(w));
    }
}

/// Appends the 32 raw bytes of `d`.
pub fn push_digest_bytes(out: &mut Vec<u8>, d: &Digest)
    ensures
        final(out)@ == old(out)@ + bytes_of_digest(*d),
{
    push_word_bytes(out, d.w0);
    push_word_bytes(out, d.w1);
    push_word_bytes(out, d.w2);
    push_word_bytes(out, d.w3);
    proof {
        assert(out@ =~= old(out)@ + bytes_of_digest(*d));
    }
}

/// Unpacking the packed bytes of a word gives the word back.
pub proof fn lemma_word_bytes_round_trip(w: u64)
    ensures
        bytes_of_word(w).len() == 8,
        word_of_bytes(bytes_of_word(w), 0) == w,
{
    let s = bytes_of_word(w);
    assert(s[0] == (w >> 0) as u8);
    assert(word_of_bytes(s, 0) == ((w >> 0) as u8 as u64) | ((w >> 8) as u8 as u64) << 8 | ((w
        >> 16) as u8 as u64) << 16 | ((w >> 24) as u8 as u64) << 24 | ((w >> 32) as u8 as u64)
        << 32 | ((w >> 40) as u8 as u64) << 40 | ((w >> 48) as u8 as u64) << 48 | ((w
        >> 56) as u8 as u64) << 56);
    assert(((w >> 0) as u8 as u64) | ((w >> 8) as u8 as u64) << 8 | ((w >> 16) as u8 as u64) << 16
        | ((w >> 24) as u8 as u64) << 24 | ((w >> 32) as u8 as u64) << 32 | ((w
        >> 40) as u8 as u64) << 40 | ((w >> 48) as u8 as u64) << 48 | ((w >> 56) as u8 as u64)
        << 56 == w) by (bit_vector);
}

/// Packing the raw bytes of a digest gives the digest back.
pub proof fn lemma_digest_bytes_round_trip(d: Digest)
    ensures
        bytes_of_digest(d).len() == 32,
        digest_of_bytes(bytes_of_digest(d)) == d,
{
    let s = bytes_of_digest(d);
    assert forall|j: int| 0 <= j < 8 implies s[j] == bytes_of_word(d.w0)[j] && s[8 + j]
        == bytes_of_word(d.w1)[j] && s[16 + j] == bytes_of_word(d.w2)[j] && s[24 + j]
        == bytes_of_word(d.w3)[j] by {}
    lemma_word_bytes_round_trip(d.w0);
    lemma_word_bytes_round_trip(d.w1);
    lemma_word_bytes_round_trip(d.w2);
    lemma_word_bytes_round_trip(d.w3);
    assert(word_of_bytes(s, 0) == word_of_bytes(bytes_of_word(d.w0), 0));
    assert(word_of_bytes(s, 1) == word_of_bytes(bytes_of_word(d.w1), 0));
    assert(word_of_bytes(s, 2) == word_of_bytes(bytes_of_word(d.w2), 0));
    assert(word_of_bytes(s, 3) == word_of_bytes(bytes_of_word(d.w3), 0));
}

impl EqKey for Digest {
    fn eq_key(&self, other: &Self) -> (r: bool)
        ensures
            r == (self == other),
    {
        self.w0 == other.w0 && self.w1 == other.w1 && self.w2 == other.w2 && self.w3 == other.w3
    }
}

/// The BLAKE3 hash of a stored blob's raw bytes.
#[derive(Clone, Copy, PartialEq, Eq, Structural, Hash, Debug)]
pub struct BlobHash(pub Digest);

/// The structural hash of a recipe's canonical serialized form.
#[derive(Clone, Copy, PartialEq, Eq, Structural, Hash, Debug)]
pub struct RecipeHash(pub Digest);

/// The content hash of a fully-resolved artifact.
#[derive(Clone, Copy, PartialEq, Eq, Structural, Hash, Debug)]
pub struct ArtifactHash(pub Digest);

/// The hash of a project definition.
#[derive(Clone, Copy, PartialEq, Eq, Structural, Hash, Debug)]
pub struct ProjectHash(pub Digest);

impl EqKey for BlobHash {
    fn eq_key(&self, other: &Self) -> (r: bool)
        ensures
            r == (self == other),
    {
        self.0.eq_key(&other.0)
    }
}

impl EqKey for RecipeHash {
    fn eq_key(&self, other: &Self) -> (r: bool)
        ensures
            r == (self == other),
    {
        self.0.eq_key(&other.0)
    }
}

impl EqKey for ArtifactHash {
    fn eq_key(&self, other: &Self) -> (r: bool)
        ensures
            r == (self == other),
    {
        self.0.eq_key(&other.0)
    }
}

impl EqKey for ProjectHash {
    fn eq_key(&self, other: &Self) -> (r: bool)
        ensures
            r == (self == other),
    {
        self.0.eq_key(&other.0)
    }
}

} // verus!
