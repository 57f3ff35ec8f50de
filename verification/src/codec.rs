//! Text forms of identifiers: lowercase hexadecimal for digests, and
//! Crockford base32 for 128-bit mutable-file ids.
//!
//! Both codecs come with round-trip proofs: parsing an encoded value gives
//! the value back.

use vstd::prelude::*;

verus! {

// ------------------------------------------------------------------
// Hexadecimal.
// ------------------------------------------------------------------

/// The lowercase hex character of a value below 16.
pub open spec fn hex_digit(n: u8) -> u8
    recommends
        n < 16,
{
    if n < 10 {
        (48 + n) as u8
    } else {
        (87 + n) as u8
    }
}

/// Whether `c` is a hex character; both letter cases are accepted.
pub open spec fn is_hex_digit(c: u8) -> bool {
    (48 <= c <= 57) || (97 <= c <= 102) || (65 <= c <= 70)
}

/// The value of a hex character.
pub open spec fn hex_val(c: u8) -> u8
    recommends
        is_hex_digit(c),
{
    if c <= 57 {
        (c - 48) as u8
    } else if c <= 70 {
        (c - 55) as u8
    } else {
        (c - 87) as u8
    }
}

/// The lowercase hex encoding of a byte string: two characters per byte,
/// high nibble first.
pub open spec fn hex_of_bytes(s: Seq<u8>) -> Seq<u8>
    decreases s.len(),
{
    if s.len() == 0 {
        Seq::empty()
    } else {
        hex_of_bytes(s.drop_last()) + seq![
            hex_digit((s.last() / 16) as u8),
            hex_digit((s.last() % 16) as u8),
        ]
    }
}

/// Character-level form of the hex encoding.
pub proof fn lemma_hex_of_bytes_index(s: Seq<u8>)
    ensures
        hex_of_bytes(s).len() == 2 * s.len(),
        forall|j: int|
            0 <= j < s.len() ==> hex_of_bytes(s)[2 * j] == hex_digit((s[j] / 16) as u8)
                && hex_of_bytes(s)[2 * j + 1] == hex_digit((s[j] % 16) as u8),
    decreases s.len(),
{
    if s.len() == 0 {
    } else {
        lemma_hex_of_bytes_index(s.drop_last());
        let prefix = hex_of_bytes(s.drop_last());
        assert forall|j: int| 0 <= j < s.len() implies hex_of_bytes(s)[2 * j] == hex_digit(
            (s[j] / 16) as u8,
        ) && hex_of_bytes(s)[2 * j + 1] == hex_digit((s[j] % 16) as u8) by {
            if j < s.len() - 1 {
                assert(hex_of_bytes(s)[2 * j] == prefix[2 * j]);
                assert(hex_of_bytes(s)[2 * j + 1] == prefix[2 * j + 1]);
                assert(s.drop_last()[j] == s[j]);
            } else {
                assert(2 * j == prefix.len());
                assert(hex_of_bytes(s)[2 * j] == hex_digit((s.last() / 16) as u8));
                assert(hex_of_bytes(s)[2 * j + 1] == hex_digit((s.last() % 16) as u8));
            }
        }
    }
}

/// A value below 16 encodes to a valid character that decodes back.
pub proof fn lemma_hex_digit_val(n: u8)
    requires
        n < 16,
    ensures
        is_hex_digit(hex_digit(n)),
        hex_val(hex_digit(n)) == n,
{
}

fn hex_digit_exec(n: u8) -> (r: u8)
    requires
        n < 16,
    ensures
        r == hex_digit(n),
{
    if n < 10 {
        48 + n
    } else {
        87 + n
    }
}

fn hex_val_exec(c: u8) -> (r: Option<u8>)
    ensures
        match r {
            Some(v) => is_hex_digit(c) && v == hex_val(c),
            None => !is_hex_digit(c),
        },
{
    if 48 <= c && c <= 57 {
        Some(c - 48)
    } else if 97 <= c && c <= 102 {
        Some(c - 87)
    } else if 65 <= c && c <= 70 {
        Some(c - 55)
    } else {
        None
    }
}

/// Encodes bytes as lowercase hex.
pub fn hex_encode(bytes: &[u8]) -> (r: Vec<u8>)
    ensures
        r@ == hex_of_bytes(bytes@),
{
    let n = bytes.len();
    let mut out: Vec<u8> = Vec::new();
    let mut i: usize = 0;
    while i < n
        invariant
            i <= n,
            n == bytes@.len(),
            out@ == hex_of_bytes(bytes@.subrange(0, i as int)),
        decreases n - i,
    {
        let b = bytes[i];
        out.push(hex_digit_exec(b / 16));
        out.push(hex_digit_exec(b % 16));
        proof {
            let post = bytes@.subrange(0, i + 1);
            assert(post.drop_last() =~= bytes@.subrange(0, i as int));
            assert(post.last() == bytes@[i as int]);
            assert(out@ =~= hex_of_bytes(post));
        }
        i = i + 1;
    }
    proof {
        assert(bytes@.subrange(0, n as int) =~= bytes@);
    }
    out
}

/// The byte written as one hex character pair.
pub open spec fn byte_of_hex_pair(a: u8, b: u8) -> u8 {
    (16 * hex_val(a) + hex_val(b)) as u8
}

/// Decodes a hex string.  Succeeds exactly when the length is even and
/// every character is a hex character; the result combines each pair.
pub fn hex_decode(s: &[u8]) -> (r: Option<Vec<u8>>)
    ensures
        match r {
            Some(v) => {
                &&& s@.len() % 2 == 0
                &&& forall|i: int| 0 <= i < s@.len() ==> is_hex_digit(#[trigger] s@[i])
                &&& v@.len() * 2 == s@.len()
                &&& forall|j: int|
                    0 <= j < v@.len() ==> #[trigger] v@[j] == byte_of_hex_pair(
                        s@[2 * j],
                        s@[2 * j + 1],
                    )
            },
            None => s@.len() % 2 != 0 || exists|i: int|
                0 <= i < s@.len() && !is_hex_digit(#[trigger] s@[i]),
        },
{
    let n = s.len();
    if n % 2 != 0 {
        return None;
    }
    let half = n / 2;
    let mut out: Vec<u8> = Vec::new();
    let mut j: usize = 0;
    while j < half
        invariant
            j <= half,
            n == s@.len(),
            half == n / 2,
            n % 2 == 0,
            out@.len() == j,
            forall|t: int| 0 <= t < 2 * j ==> is_hex_digit(#[trigger] s@[t]),
            forall|t: int|
                0 <= t < j ==> #[trigger] out@[t] == byte_of_hex_pair(s@[2 * t], s@[2 * t + 1]),
        decreases half - j,
    {
        let hi = match hex_val_exec(s[2 * j]) {
            Some(v) => v,
            None => {
                return None;
            },
        };
        let lo = match hex_val_exec(s[2 * j + 1]) {
            Some(v) => v,
            None => {
                return None;
            },
        };
        out.push(16 * hi + lo);
        j = j + 1;
    }
    Some(out)
}

/// Hex decoding is a left inverse of hex encoding.
pub proof fn lemma_hex_round_trip(b: Seq<u8>, v: Seq<u8>)
    requires
        v.len() * 2 == hex_of_bytes(b).len(),
        forall|j: int|
            0 <= j < v.len() ==> #[trigger] v[j] == byte_of_hex_pair(
                hex_of_bytes(b)[2 * j],
                hex_of_bytes(b)[2 * j + 1],
            ),
    ensures
        v =~= b,
{
    lemma_hex_of_bytes_index(b);
    assert forall|j: int| 0 <= j < b.len() implies v[j] == b[j] by {
        lemma_hex_digit_val((b[j] / 16) as u8);
        lemma_hex_digit_val((b[j] % 16) as u8);
    }
}

// ------------------------------------------------------------------
// Crockford base32, for 128-bit ids.
// ------------------------------------------------------------------

/// The Crockford base32 character of a value below 32: digits, then the
/// uppercase alphabet without I, L, O and U.
pub open spec fn b32_digit(n: u8) -> u8
    recommends
        n < 32,
{
    if n < 10 {
        (48 + n) as u8
    } else if n < 18 {
        (55 + n) as u8
    } else if n < 20 {
        (56 + n) as u8
    } else if n < 22 {
        (57 + n) as u8
    } else if n < 27 {
        (58 + n) as u8
    } else {
        (59 + n) as u8
    }
}

/// Whether `c` is a Crockford base32 character; both letter cases are
/// accepted.
pub open spec fn is_b32_digit(c: u8) -> bool {
    ||| (48 <= c <= 57)
    ||| (65 <= c <= 72)
    ||| c == 74
    ||| c == 75
    ||| c == 77
    ||| c == 78
    ||| (80 <= c <= 84)
    ||| (86 <= c <= 90)
    ||| (97 <= c <= 104)
    ||| c == 106
    ||| c == 107
    ||| c == 109
    ||| c == 110
    ||| (112 <= c <= 116)
    ||| (118 <= c <= 122)
}

/// The value of a Crockford base32 character.
pub open spec fn b32_val(c: u8) -> u8
    recommends
        is_b32_digit(c),
{
    if c <= 57 {
        (c - 48) as u8
    } else if c <= 72 {
        (c - 55) as u8
    } else if c <= 75 {
        (c - 56) as u8
    } else if c <= 78 {
        (c - 57) as u8
    } else if c <= 84 {
        (c - 58) as u8
    } else if c <= 90 {
        (c - 59) as u8
    } else if c <= 104 {
        (c - 87) as u8
    } else if c <= 107 {
        (c - 88) as u8
    } else if c <= 110 {
        (c - 89) as u8
    } else if c <= 116 {
        (c - 90) as u8
    } else {
        (c - 91) as u8
    }
}

/// A value below 32 encodes to a valid character that decodes back.
pub proof fn lemma_b32_digit_val(n: u8)
    requires
        n < 32,
    ensures
        is_b32_digit(b32_digit(n)),
        b32_val(b32_digit(n)) == n,
{
}

fn b32_digit_exec(n: u8) -> (r: u8)
    requires
        n < 32,
    ensures
        r == b32_digit(n),
{
    if n < 10 {
        48 + n
    } else if n < 18 {
        55 + n
    } else if n < 20 {
        56 + n
    } else if n < 22 {
        57 + n
    } else if n < 27 {
        58 + n
    } else {
        59 + n
    }
}

fn b32_val_exec(c: u8) -> (r: Option<u8>)
    ensures
        match r {
            Some(v) => is_b32_digit(c) && v == b32_val(c),
            None => !is_b32_digit(c),
        },
{
    if 48 <= c && c <= 57 {
        Some(c - 48)
    } else if 65 <= c && c <= 72 {
        Some(c - 55)
    } else if c == 74 || c == 75 {
        Some(c - 56)
    } else if c == 77 || c == 78 {
        Some(c - 57)
    } else if 80 <= c && c <= 84 {
        Some(c - 58)
    } else if 86 <= c && c <= 90 {
        Some(c - 59)
    } else if 97 <= c && c <= 104 {
        Some(c - 87)
    } else if c == 106 || c == 107 {
        Some(c - 88)
    } else if c == 109 || c == 110 {
        Some(c - 89)
    } else if 112 <= c && c <= 116 {
        Some(c - 90)
    } else if 118 <= c && c <= 122 {
        Some(c - 91)
    } else {
        None
    }
}

/// Character `i` of the 26-character base32 form of `v`: five bits per
/// character, most significant first, the leading character carrying the
/// top three bits.
pub open spec fn ulid_char(v: u128, i: int) -> u8
    recommends
        0 <= i < 26,
{
    b32_digit(((v >> (125 - 5 * i) as u128) & 31) as u8)
}

/// The 26-character Crockford base32 form of a 128-bit id.
pub open spec fn ulid_chars(v: u128) -> Seq<u8> {
    Seq::new(26, |i: int| ulid_char(v, i))
}

/// Encodes a 128-bit id as 26 Crockford base32 characters.
pub fn ulid_encode(v: u128) -> (r: Vec<u8>)
    ensures
        r@ == ulid_chars(v),
{
    let mut out: Vec<u8> = Vec::new();
    let mut i: usize = 0;
    while i < 26
        invariant
            i <= 26,
            out@.len() == i,
            forall|j: int| 0 <= j < i ==> out@[j] == ulid_char(v, j),
        decreases 26 - i,
    {
        let sh: u32 = (125 - 5 * i) as u32;
        let ghost x = v >> sh as u128;
        proof {
            assert(x & 31 < 32) by (bit_vector);
        }
        let d = ((v >> sh) & 31) as u8;
        out.push(b32_digit_exec(d));
        i = i + 1;
    }
    proof {
        assert(out@ =~= ulid_chars(v));
    }
    out
}

/// The left fold that decodes base32 characters, most significant first.
pub open spec fn b32_fold(s: Seq<u8>) -> u128
    decreases s.len(),
{
    if s.len() == 0 {
        0u128
    } else {
        (b32_fold(s.drop_last()) << 5) | (b32_val(s.last()) as u128)
    }
}

/// Decodes a 26-character Crockford base32 string.  Succeeds exactly when
/// the length is 26 and every character is valid.
pub fn ulid_decode(s: &[u8]) -> (r: Option<u128>)
    ensures
        match r {
            Some(v) => {
                &&& s@.len() == 26
                &&& forall|i: int| 0 <= i < s@.len() ==> is_b32_digit(#[trigger] s@[i])
                &&& v == b32_fold(s@)
            },
            None => s@.len() != 26 || exists|i: int|
                0 <= i < s@.len() && !is_b32_digit(#[trigger] s@[i]),
        },
{
    let n = s.len();
    if n != 26 {
        return None;
    }
    let mut acc: u128 = 0;
    let mut i: usize = 0;
    while i < 26
        invariant
            i <= 26,
            n == 26,
            s@.len() == 26,
            forall|t: int| 0 <= t < i ==> is_b32_digit(#[trigger] s@[t]),
            acc == b32_fold(s@.subrange(0, i as int)),
        decreases 26 - i,
    {
        let d = match b32_val_exec(s[i]) {
            Some(v) => v,
            None => {
                return None;
            },
        };
        acc = (acc << 5u32) | (d as u128);
        proof {
            let post = s@.subrange(0, i + 1);
            assert(post.drop_last() =~= s@.subrange(0, i as int));
            assert(post.last() == s@[i as int]);
        }
        i = i + 1;
    }
    proof {
        assert(s@.subrange(0, 26) =~= s@);
    }
    Some(acc)
}

/// Folding a prefix of the encoded form recovers the id's top bits.
proof fn lemma_b32_fold_prefix(v: u128, k: int)
    requires
        1 <= k <= 26,
    ensures
        b32_fold(ulid_chars(v).subrange(0, k)) == v >> (130 - 5 * k) as u128,
    decreases k,
{
    let chars = ulid_chars(v);
    if k == 1 {
        let s1 = chars.subrange(0, 1);
        assert(s1.drop_last() =~= Seq::<u8>::empty());
        assert(s1.last() == chars[0]);
        assert(b32_fold(s1) == (b32_fold(s1.drop_last()) << 5) | (b32_val(s1.last()) as u128));
        assert(b32_fold(s1.drop_last()) == 0);
        let d = ((v >> 125u128) & 31) as u8;
        assert((v >> 125u128) & 31 < 32) by (bit_vector);
        lemma_b32_digit_val(d);
        assert(chars[0] == ulid_char(v, 0));
        assert((125 - 5 * 0) as u128 == 125u128);
        assert(chars[0] == b32_digit(d));
        assert(b32_val(s1.last()) == d);
        assert(b32_fold(s1) == (0u128 << 5) | (d as u128));
        assert((0u128 << 5) | ((((v >> 125u128) & 31) as u8) as u128) == v >> 125u128)
            by (bit_vector);
        assert(b32_fold(s1) == v >> 125u128);
        assert((130 - 5 * 1) as u128 == 125u128);
    } else {
        lemma_b32_fold_prefix(v, k - 1);
        assert(chars.subrange(0, k).drop_last() =~= chars.subrange(0, k - 1));
        assert(chars.subrange(0, k).last() == chars[k - 1]);
        let s = (130 - 5 * k) as u128;
        assert(0 <= 130 - 5 * k <= 120);
        assert(s == 130 - 5 * k);
        // the digit at position k - 1 carries bits s .. s + 5 of the id
        assert((125 - 5 * (k - 1)) as u128 == s);
        let d = ((v >> s) & 31) as u8;
        assert(chars[k - 1] == ulid_char(v, k - 1));
        assert(chars[k - 1] == b32_digit(d));
        assert((v >> s) & 31 < 32) by (bit_vector);
        lemma_b32_digit_val(d);
        // the fold so far holds bits above s + 5
        let t = ((s + 5) as u128);
        assert(t == (130 - 5 * (k - 1)) as u128);
        assert(b32_fold(chars.subrange(0, k - 1)) == v >> t);
        assert(b32_fold(chars.subrange(0, k)) == ((v >> t) << 5) | (d as u128));
        assert((s <= 120 && t == s + 5) ==> ((((v >> t) << 5) | ((v >> s) & 31)) == v >> s))
            by (bit_vector);
        assert(t == s + 5);
        assert((d as u128) == (v >> s) & 31) by {
            assert((v >> s) & 31 < 256);
        }
        assert(b32_fold(chars.subrange(0, k)) == v >> s);
    }
}

/// Base32 decoding is a left inverse of base32 encoding: every 128-bit id
/// round-trips through its 26-character form.
pub proof fn lemma_ulid_round_trip(v: u128)
    ensures
        ulid_chars(v).len() == 26,
        forall|i: int| 0 <= i < 26 ==> is_b32_digit(#[trigger] ulid_chars(v)[i]),
        b32_fold(ulid_chars(v)) == v,
{
    assert forall|i: int| 0 <= i < 26 implies is_b32_digit(#[trigger] ulid_chars(v)[i]) by {
        let sh = (125 - 5 * i) as u128;
        assert(sh <= 125);
        assert(sh <= 125 ==> (v >> sh) & 31 < 32) by (bit_vector);
        lemma_b32_digit_val(((v >> sh) & 31) as u8);
    }
    lemma_b32_fold_prefix(v, 26);
    assert(ulid_chars(v).subrange(0, 26) =~= ulid_chars(v));
    assert(v >> 0u128 == v) by (bit_vector);
}

} // verus!
