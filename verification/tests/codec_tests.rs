use brioche::codec::{hex_decode, hex_encode, ulid_decode, ulid_encode};
use brioche::digest::hash_bytes;
use brioche::recipe::{recipe_hash, Recipe};

#[test]
fn hex_encodes_lowercase_and_round_trips() {
    let bytes = vec![0x00u8, 0x0f, 0xa5, 0xff];
    let text = hex_encode(&bytes);
    assert_eq!(text, b"000fa5ff".to_vec());
    assert_eq!(hex_decode(&text).unwrap(), bytes);
    // uppercase input decodes to the same bytes
    assert_eq!(hex_decode(b"000FA5FF").unwrap(), bytes);
    // odd length and bad characters are rejected
    assert!(hex_decode(b"abc").is_none());
    assert!(hex_decode(b"zz").is_none());
}

#[test]
fn base32_matches_the_ulid_text_form() {
    let value = 0x4d4e_3850_5144_4a59_4542_3433_5a41_3756u128;
    let text = ulid_encode(value);
    assert_eq!(text, b"2D9RW50MA499CMAGHM6DD42DTP".to_vec());
    assert_eq!(ulid_decode(&text).unwrap(), value);
    // lowercase decodes too, as the ulid crate accepts it
    assert_eq!(ulid_decode(b"2d9rw50ma499cmaghm6dd42dtp").unwrap(), value);
    assert_eq!(ulid::Ulid(value).to_string().as_bytes(), text.as_slice());
    // wrong length or an excluded letter is rejected
    assert!(ulid_decode(b"SHORT").is_none());
    assert!(ulid_decode(b"2D9RW50MA499CMAGHM6DD42DTU").is_none());
}

#[test]
fn library_hashing_matches_the_blake3_crate() {
    let d = hash_bytes(b"cross check me");
    let expected = blake3::hash(b"cross check me");
    let expected_bytes = expected.as_bytes();
    let mut out: Vec<u8> = Vec::new();
    brioche::digest::push_digest_bytes(&mut out, &d);
    assert_eq!(out.as_slice(), expected_bytes);
}

#[test]
fn recipe_hashes_depend_on_content() {
    let a = recipe_hash(&Recipe::Download { url: b"https://example/a".to_vec() });
    let b = recipe_hash(&Recipe::Download { url: b"https://example/b".to_vec() });
    let a2 = recipe_hash(&Recipe::Download { url: b"https://example/a".to_vec() });
    assert_eq!(a, a2);
    assert_ne!(a, b);
    // tag bytes separate variants with identical payloads
    let s1 = recipe_hash(&Recipe::CreateSymlink { target: b"t".to_vec() });
    let d1 = recipe_hash(&Recipe::Download { url: b"t".to_vec() });
    assert_ne!(s1, d1);
}
