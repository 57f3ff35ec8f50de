use brioche::blob::{blob_path, BlobStore, SavePermitGate};
use brioche::digest::{hash_bytes, BlobHash};
use brioche::vfs::{FileId, Vfs, VfsError};

#[test]
fn blob_save_then_read_returns_the_same_bytes() {
    let mut store = BlobStore::new();
    let mut gate = SavePermitGate::new(2);
    let permit = gate.try_acquire().unwrap();
    let h = store.save_blob(&permit, b"some stored bytes".to_vec());
    gate.release(permit);
    let back = store.read(&h).unwrap();
    assert_eq!(back.as_slice(), b"some stored bytes");
    assert_eq!(h, BlobHash(hash_bytes(b"some stored bytes")));
}

#[test]
fn save_permits_are_bounded() {
    let mut gate = SavePermitGate::new(2);
    let p1 = gate.try_acquire().unwrap();
    let p2 = gate.try_acquire().unwrap();
    assert!(gate.try_acquire().is_none());
    gate.release(p1);
    let p3 = gate.try_acquire().unwrap();
    gate.release(p2);
    gate.release(p3);
}

#[test]
fn blob_path_is_blobs_slash_hex() {
    let h = BlobHash(hash_bytes(b"path me"));
    let path = blob_path(&h);
    let expected_hex = blake3::hash(b"path me").to_hex();
    let mut expected = b"blobs/".to_vec();
    expected.extend_from_slice(expected_hex.as_bytes());
    assert_eq!(path, expected);
}

#[test]
fn immutable_vfs_uses_content_hash_ids() {
    let mut vfs = Vfs::immutable();
    let id = vfs.insert_loaded(b"/src/main.tpl".to_vec(), b"contents one".to_vec()).unwrap();
    match id {
        FileId::Hash(_) => {},
        _ => panic!("immutable VFS must hand out hash ids"),
    }
    // the text form of the id is the blake3 hex of the contents
    let text = id.encode();
    assert_eq!(text.as_slice(), blake3::hash(b"contents one").to_hex().as_bytes());
    // a second path with identical contents joins the same entry
    let id2 = vfs.insert_loaded(b"/src/copy.tpl".to_vec(), b"contents one".to_vec()).unwrap();
    assert_eq!(id, id2);
    let (cached_id, bytes) = vfs.load_cached(&b"/src/copy.tpl".to_vec()).unwrap();
    assert_eq!(cached_id, id);
    assert_eq!(bytes.as_slice(), b"contents one");
}

#[test]
fn mutable_vfs_update_is_visible_through_every_path() {
    let mut vfs = Vfs::mutable();
    let id = vfs.insert_loaded(b"/p".to_vec(), b"before".to_vec()).unwrap();
    match id {
        FileId::Mutable(_) => {},
        _ => panic!("mutable VFS must hand out mutable ids"),
    }
    vfs.update(id, b"after".to_vec()).unwrap();
    let (cached_id, bytes) = vfs.load_cached(&b"/p".to_vec()).unwrap();
    assert_eq!(cached_id, id);
    assert_eq!(bytes.as_slice(), b"after");
    // a mutable id has no content invariant to validate
    assert_eq!(id.validate_matches(b"after"), Err(VfsError::CannotValidateMutable));
}

#[test]
fn update_rejects_hash_ids_and_unknown_ids() {
    let mut vfs = Vfs::mutable();
    let hash_id = FileId::Hash(hash_bytes(b"x"));
    assert_eq!(vfs.update(hash_id, b"y".to_vec()), Err(VfsError::NotMutable));
    let unknown = FileId::Mutable(42);
    assert_eq!(vfs.update(unknown, b"y".to_vec()), Err(VfsError::UnknownFileId));
}

#[test]
fn validate_matches_detects_corruption() {
    let id = FileId::Hash(hash_bytes(b"good bytes"));
    assert!(id.validate_matches(b"good bytes").is_ok());
    assert_eq!(id.validate_matches(b"bad bytes"), Err(VfsError::HashMismatch));
}

#[test]
fn file_id_round_trips_both_variants() {
    // hash variant: 64 lowercase hex characters
    let hash_id = FileId::Hash(hash_bytes(b"round trip me"));
    let text = hash_id.encode();
    assert_eq!(text.len(), 64);
    assert_eq!(FileId::parse(&text).unwrap(), hash_id);

    // mutable variant: 26 Crockford base32 characters
    let mutable_id = FileId::Mutable(0x0123_4567_89ab_cdef_0123_4567_89ab_cdef);
    let text = mutable_id.encode();
    assert_eq!(text.len(), 26);
    assert_eq!(FileId::parse(&text).unwrap(), mutable_id);

    // the mutable form matches the ulid crate's text form
    let ulid_text = ulid::Ulid(0x0123_4567_89ab_cdef_0123_4567_89ab_cdef).to_string();
    assert_eq!(text.as_slice(), ulid_text.as_bytes());
}

#[test]
fn file_id_parse_rejects_other_lengths() {
    let s = [b'a'; 32];
    assert_eq!(FileId::parse(&s), Err(VfsError::InvalidFileId));
    let s = [b'!'; 26];
    assert_eq!(FileId::parse(&s), Err(VfsError::InvalidFileId));
    let s = [b'g'; 64];
    assert_eq!(FileId::parse(&s), Err(VfsError::InvalidFileId));
}

#[test]
fn insert_with_id_succeeds_exactly_on_fresh_ids() {
    let mut vfs = Vfs::mutable();
    let id = FileId::Mutable(7);
    let got = vfs.insert_with_id(b"/m".to_vec(), b"payload".to_vec(), id).unwrap();
    assert_eq!(got, id);
    let (cached_id, bytes) = vfs.load_cached(&b"/m".to_vec()).unwrap();
    assert_eq!(cached_id, id);
    assert_eq!(bytes.as_slice(), b"payload");
    // the same id again is a duplicate, and nothing changes
    assert_eq!(
        vfs.insert_with_id(b"/n".to_vec(), b"other".to_vec(), id),
        Err(VfsError::DuplicateFileId)
    );
    assert!(vfs.load_cached(&b"/n".to_vec()).is_none());
}
