use brioche::blob::{BlobStore, SavePermitGate};
use brioche::digest::{hash_bytes, BlobHash};
use brioche::recipe::Artifact;
use brioche::unpack::{resolve_unpack, ArchiveEntry, ArchiveEntryKind, UnpackError};

fn regular(path: &[u8], contents: &[u8], mode: u32) -> ArchiveEntry {
    ArchiveEntry {
        path: path.to_vec(),
        kind: ArchiveEntryKind::Regular { contents: contents.to_vec(), mode },
    }
}

#[test]
fn unpack_builds_nested_directories_and_saves_blobs() {
    let mut store = BlobStore::new();
    let mut gate = SavePermitGate::new(4);
    let mut entries = Vec::new();
    entries.push(ArchiveEntry { path: b"".to_vec(), kind: ArchiveEntryKind::Dir });
    entries.push(ArchiveEntry { path: b"bin".to_vec(), kind: ArchiveEntryKind::Dir });
    entries.push(regular(b"bin/tool", b"#!binary", 0o755));
    entries.push(regular(b"readme.txt", b"docs", 0o644));
    entries.push(ArchiveEntry {
        path: b"bin/link".to_vec(),
        kind: ArchiveEntryKind::Symlink { target: Some(b"tool".to_vec()) },
    });
    let dir = resolve_unpack(&mut store, &mut gate, &entries).unwrap();

    // the blob of each regular entry is stored under its hash
    assert!(store.read(&BlobHash(hash_bytes(b"#!binary"))).is_some());
    assert!(store.read(&BlobHash(hash_bytes(b"docs"))).is_some());

    // top level: bin/ and readme.txt
    assert_eq!(dir.entries.len(), 2);
    assert_eq!(dir.entries[0].0, b"bin".to_vec());
    match &dir.entries[0].1 {
        Artifact::Dir(sub) => {
            assert_eq!(sub.entries.len(), 2);
            assert_eq!(sub.entries[0].0, b"tool".to_vec());
            match &sub.entries[0].1 {
                Artifact::File { blob, executable, .. } => {
                    assert_eq!(*blob, BlobHash(hash_bytes(b"#!binary")));
                    assert!(*executable);
                },
                _ => panic!("expected a file"),
            }
            match &sub.entries[1].1 {
                Artifact::Symlink { target } => assert_eq!(target, &b"tool".to_vec()),
                _ => panic!("expected a symlink"),
            }
        },
        _ => panic!("expected a directory"),
    }
    match &dir.entries[1].1 {
        Artifact::File { executable, .. } => assert!(!*executable),
        _ => panic!("expected a file"),
    }
}

#[test]
fn unpack_resolves_hard_links_to_earlier_entries() {
    let mut store = BlobStore::new();
    let mut gate = SavePermitGate::new(4);
    let mut entries = Vec::new();
    entries.push(regular(b"a/first", b"shared bytes", 0o644));
    entries.push(ArchiveEntry {
        path: b"a/alias".to_vec(),
        kind: ArchiveEntryKind::HardLink { target: Some(b"a/first".to_vec()) },
    });
    let dir = resolve_unpack(&mut store, &mut gate, &entries).unwrap();
    match &dir.entries[0].1 {
        Artifact::Dir(sub) => {
            let linked = &sub.entries[0].1;
            let alias = &sub.entries[1].1;
            assert_eq!(linked, alias);
        },
        _ => panic!("expected a directory"),
    }
}

#[test]
fn unpack_rejects_broken_archives() {
    let mut store = BlobStore::new();
    let mut gate = SavePermitGate::new(4);

    let mut entries = Vec::new();
    entries.push(ArchiveEntry {
        path: b"x".to_vec(),
        kind: ArchiveEntryKind::Symlink { target: None },
    });
    let failure = resolve_unpack(&mut store, &mut gate, &entries).unwrap_err();
    assert_eq!(failure.kind, UnpackError::MissingLinkName);
    assert_eq!(failure.path, b"x".to_vec());

    let mut entries = Vec::new();
    entries.push(ArchiveEntry {
        path: b"y".to_vec(),
        kind: ArchiveEntryKind::HardLink { target: Some(b"missing".to_vec()) },
    });
    let failure = resolve_unpack(&mut store, &mut gate, &entries).unwrap_err();
    assert_eq!(failure.kind, UnpackError::LinkTargetNotFound);
    assert_eq!(failure.path, b"y".to_vec());

    let mut entries = Vec::new();
    entries.push(ArchiveEntry { path: b"z".to_vec(), kind: ArchiveEntryKind::Unsupported });
    let failure = resolve_unpack(&mut store, &mut gate, &entries).unwrap_err();
    assert_eq!(failure.kind, UnpackError::UnsupportedEntryType);
    assert_eq!(failure.path, b"z".to_vec());

    // a file in the way of a deeper path: the error names the path that
    // could not be inserted
    let mut entries = Vec::new();
    entries.push(regular(b"blocked", b"f", 0o644));
    entries.push(regular(b"blocked/inner", b"g", 0o644));
    let failure = resolve_unpack(&mut store, &mut gate, &entries).unwrap_err();
    assert_eq!(failure.kind, UnpackError::NotADirectory);
    assert_eq!(failure.path, b"blocked/inner".to_vec());
}

#[test]
fn unpack_replaces_duplicate_paths_with_the_later_entry() {
    let mut store = BlobStore::new();
    let mut gate = SavePermitGate::new(4);
    let mut entries = Vec::new();
    entries.push(regular(b"f", b"first", 0o644));
    entries.push(regular(b"f", b"second", 0o644));
    let dir = resolve_unpack(&mut store, &mut gate, &entries).unwrap();
    assert_eq!(dir.entries.len(), 1);
    match &dir.entries[0].1 {
        Artifact::File { blob, .. } => assert_eq!(*blob, BlobHash(hash_bytes(b"second"))),
        _ => panic!("expected a file"),
    }
}
