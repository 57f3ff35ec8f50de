//! Resolving an unpack step: folding parsed archive entries into a
//! directory artifact, saving each regular file's bytes as a blob.
//!
//! Entries arrive in archive order.  Regular files become file artifacts
//! backed by freshly saved blobs; symlinks and directories become their
//! artifacts; hard links copy the artifact their target path already
//! resolves to.  Entries whose path has no components are skipped, as
//! archives may carry an entry for their root.

use vstd::prelude::*;

use crate::blob::{BlobStore, SavePermitGate};
use crate::digest::{blake3_digest, BlobHash};
use crate::recipe::{
    art_model, clone_artifact, copy_bytes, dir_model, entries_model, lemma_entries_model_index,
    ArtModel, Artifact, DirModel, Directory,
};

verus! {

/// An error surfaced while resolving an unpack.
#[derive(Clone, Copy, Debug, PartialEq, Eq)]
pub enum UnpackError {
    /// A path component led through an entry that is not a directory.
    NotADirectory,
    /// A symlink or hard-link entry carries no link name.
    MissingLinkName,
    /// A hard link points at a path with no entry yet.
    LinkTargetNotFound,
    /// The archive holds an entry type the engine does not support.
    UnsupportedEntryType,
    /// An insertion was attempted with no path components at all.
    EmptyPath,
}

impl UnpackError {
    /// A short description of the error kind.
    pub fn describe(&self) -> (r: &'static str)
        ensures
            true,
    {
        match self {
            UnpackError::NotADirectory => "path component is not a directory",
            UnpackError::MissingLinkName => "unsupported archive: no link name for link entry",
            UnpackError::LinkTargetNotFound => "unsupported archive: could not find link target",
            UnpackError::UnsupportedEntryType => "unsupported archive: unsupported entry type",
            UnpackError::EmptyPath => "cannot insert an empty path",
        }
    }
}

/// An unpack error together with the path of the entry that caused it.
#[derive(Debug, PartialEq, Eq)]
pub struct UnpackFailure {
    pub kind: UnpackError,
    pub path: Vec<u8>,
}

/// One parsed archive entry.
pub struct ArchiveEntry {
    pub path: Vec<u8>,
    pub kind: ArchiveEntryKind,
}

/// The payload of one archive entry.
pub enum ArchiveEntryKind {
    /// A regular file: its bytes and its mode bits.
    Regular { contents: Vec<u8>, mode: u32 },
    /// A symbolic link, when the archive names a target.
    Symlink { target: Option<Vec<u8>> },
    /// A hard link to an earlier entry, when the archive names a target.
    HardLink { target: Option<Vec<u8>> },
    /// A directory entry.
    Dir,
    /// Anything else.
    Unsupported,
}

// ------------------------------------------------------------------
// Path components.
// ------------------------------------------------------------------

/// The views of a list of byte strings.
pub open spec fn seq_views(s: Seq<Vec<u8>>) -> Seq<Seq<u8>> {
    s.map_values(|v: Vec<u8>| v@)
}

/// Splitting from position `i` with the partial component `cur` and the
/// components `acc` already found.
pub open spec fn split_from(p: Seq<u8>, i: int, cur: Seq<u8>, acc: Seq<Seq<u8>>) -> Seq<Seq<u8>>
    decreases p.len() - i,
{
    if i < 0 || i >= p.len() {
        if cur.len() == 0 {
            acc
        } else {
            acc.push(cur)
        }
    } else if p[i] == 47 {
        if cur.len() == 0 {
            split_from(p, i + 1, cur, acc)
        } else {
            split_from(p, i + 1, Seq::empty(), acc.push(cur))
        }
    } else {
        split_from(p, i + 1, cur.push(p[i]), acc)
    }
}

/// The non-empty slash-separated components of a path.
pub open spec fn split_path(p: Seq<u8>) -> Seq<Seq<u8>> {
    split_from(p, 0, Seq::empty(), Seq::empty())
}

/// Splits a path into its non-empty components.
pub fn split_path_exec(p: &Vec<u8>) -> (r: Vec<Vec<u8>>)
    ensures
        seq_views(r@) == split_path(p@),
{
    let n = p.len();
    let mut out: Vec<Vec<u8>> = Vec::new();
    let mut cur: Vec<u8> = Vec::new();
    let mut i: usize = 0;
    proof {
        assert(seq_views(out@) =~= Seq::<Seq<u8>>::empty());
        assert(cur@ =~= Seq::<u8>::empty());
    }
    while i < n
        invariant
            i <= n,
            n == p@.len(),
            split_from(p@, i as int, cur@, seq_views(out@)) == split_path(p@),
        decreases n - i,
    {
        if p[i] == 47 {
            if cur.len() > 0 {
                let ghost prev = out@;
                let full = cur;
                out.push(full);
                cur = Vec::new();
                proof {
                    assert(seq_views(out@) =~= seq_views(prev).push(full@));
                    assert(cur@ =~= Seq::<u8>::empty());
                }
            }
        } else {
            cur.push(p[i]);
        }
        i = i + 1;
    }
    if cur.len() > 0 {
        let ghost prev = out@;
        let full = cur;
        out.push(full);
        proof {
            assert(seq_views(out@) =~= seq_views(prev).push(full@));
        }
    }
    out
}

// ------------------------------------------------------------------
// Directory lookup and insertion, over the model.
// ------------------------------------------------------------------

/// The index of the entry named `name`, preferring later entries.
pub open spec fn model_find(s: Seq<(Seq<u8>, ArtModel)>, name: Seq<u8>) -> Option<int>
    decreases s.len(),
{
    if s.len() == 0 {
        Option::None
    } else if s.last().0 == name {
        Option::Some(s.len() - 1)
    } else {
        model_find(s.drop_last(), name)
    }
}

/// `model_find` returns the last matching index, if any.
proof fn lemma_model_find_character(s: Seq<(Seq<u8>, ArtModel)>, name: Seq<u8>)
    ensures
        match model_find(s, name) {
            Option::Some(j) => 0 <= j < s.len() && s[j].0 == name && (forall|t: int|
                j < t < s.len() ==> (#[trigger] s[t]).0 != name),
            Option::None => forall|t: int| 0 <= t < s.len() ==> (#[trigger] s[t]).0 != name,
        },
    decreases s.len(),
{
    if s.len() == 0 {
    } else if s.last().0 == name {
    } else {
        lemma_model_find_character(s.drop_last(), name);
        match model_find(s.drop_last(), name) {
            Option::Some(j) => {
                assert(s.drop_last()[j] == s[j]);
                assert forall|t: int| j < t < s.len() implies (#[trigger] s[t]).0 != name by {
                    if t < s.len() - 1 {
                        assert(s.drop_last()[t] == s[t]);
                    }
                }
            },
            Option::None => {
                assert forall|t: int| 0 <= t < s.len() implies (#[trigger] s[t]).0 != name by {
                    if t < s.len() - 1 {
                        assert(s.drop_last()[t] == s[t]);
                    }
                }
            },
        }
    }
}

/// Appending one entry appends its model.
proof fn lemma_entries_model_push(s: Seq<(Vec<u8>, Artifact)>, p: (Vec<u8>, Artifact))
    ensures
        entries_model(s.push(p)) == entries_model(s).push((p.0@, art_model(p.1))),
{
    assert(s.push(p).drop_last() =~= s);
    assert(s.push(p).last() == p);
}

/// A last-match witness determines `model_find`.
proof fn lemma_model_find_is(s: Seq<(Seq<u8>, ArtModel)>, name: Seq<u8>, j: int)
    requires
        0 <= j < s.len(),
        s[j].0 == name,
        forall|t: int| j < t < s.len() ==> (#[trigger] s[t]).0 != name,
    ensures
        model_find(s, name) == Option::Some(j),
    decreases s.len(),
{
    if j == s.len() - 1 {
    } else {
        assert(s.last().0 != name);
        assert(s.drop_last()[j] == s[j]);
        lemma_model_find_is(s.drop_last(), name, j);
    }
}

/// The artifact value a component path resolves to, if any.
pub open spec fn model_get(d: DirModel, comps: Seq<Seq<u8>>, i: int) -> Option<ArtModel>
    decreases comps.len() - i,
{
    if i < 0 || i >= comps.len() {
        Option::None
    } else {
        match model_find(d.entries, comps[i]) {
            Option::None => Option::None,
            Option::Some(j) => {
                if i == comps.len() - 1 {
                    Option::Some(d.entries[j].1)
                } else {
                    match d.entries[j].1 {
                        ArtModel::Dir(sub) => model_get(sub, comps, i + 1),
                        _ => Option::None,
                    }
                }
            },
        }
    }
}

/// The directory after binding a component path to an artifact value:
/// missing intermediate directories are created, and a non-directory in
/// the way is an error.
pub open spec fn model_insert(d: DirModel, comps: Seq<Seq<u8>>, i: int, v: ArtModel) -> Result<
    DirModel,
    UnpackError,
>
    decreases comps.len() - i,
{
    if i < 0 || i >= comps.len() {
        Result::Err(UnpackError::EmptyPath)
    } else {
        let name = comps[i];
        match model_find(d.entries, name) {
            Option::Some(j) => {
                if i == comps.len() - 1 {
                    Result::Ok(DirModel { entries: d.entries.update(j, (name, v)) })
                } else {
                    match d.entries[j].1 {
                        ArtModel::Dir(sub) => match model_insert(sub, comps, i + 1, v) {
                            Result::Ok(sub2) => Result::Ok(
                                DirModel {
                                    entries: d.entries.update(j, (name, ArtModel::Dir(sub2))),
                                },
                            ),
                            Result::Err(e) => Result::Err(e),
                        },
                        _ => Result::Err(UnpackError::NotADirectory),
                    }
                }
            },
            Option::None => {
                if i == comps.len() - 1 {
                    Result::Ok(DirModel { entries: d.entries.push((name, v)) })
                } else {
                    match model_insert(DirModel { entries: Seq::empty() }, comps, i + 1, v) {
                        Result::Ok(sub2) => Result::Ok(
                            DirModel { entries: d.entries.push((name, ArtModel::Dir(sub2))) },
                        ),
                        Result::Err(e) => Result::Err(e),
                    }
                }
            },
        }
    }
}

/// Finds the entry named `name`, preferring later entries.
fn find_entry(entries: &Vec<(Vec<u8>, Artifact)>, name: &Vec<u8>) -> (r: Option<usize>)
    ensures
        match r {
            Some(j) => j < entries@.len() && model_find(entries_model(entries@), name@)
                == Option::Some(j as int),
            None => model_find(entries_model(entries@), name@) is None,
        },
{
    proof {
        lemma_entries_model_index(entries@);
    }
    let mut j = entries.len();
    while j > 0
        invariant
            j <= entries@.len(),
            entries_model(entries@).len() == entries@.len(),
            forall|i: int|
                0 <= i < entries@.len() ==> #[trigger] entries_model(entries@)[i] == (
                entries@[i].0@,
                art_model(entries@[i].1),
            ),
            forall|t: int| j <= t < entries@.len() ==> (#[trigger] entries@[t]).0@ != name@,
        decreases j,
    {
        j = j - 1;
        if crate::vfs::bytes_eq(&entries[j].0, name) {
            proof {
                lemma_model_find_is(entries_model(entries@), name@, j as int);
            }
            return Some(j);
        }
    }
    proof {
        lemma_model_find_character(entries_model(entries@), name@);
        if model_find(entries_model(entries@), name@) is Some {
            let jj = model_find(entries_model(entries@), name@)->Some_0;
            assert(entries@[jj].0@ != name@);
            assert(entries_model(entries@)[jj].0 == name@);
        }
    }
    None
}

/// Looks a component path up in a directory.
pub fn dir_get<'a>(d: &'a Directory, comps: &Vec<Vec<u8>>, i: usize) -> (r: Option<&'a Artifact>)
    requires
        i <= comps@.len(),
    ensures
        match r {
            Some(a) => model_get(dir_model(*d), seq_views(comps@), i as int) == Option::Some(
                art_model(*a),
            ),
            None => model_get(dir_model(*d), seq_views(comps@), i as int) is None,
        },
    decreases comps@.len() - i,
{
    proof {
        lemma_entries_model_index(d.entries@);
    }
    if i >= comps.len() {
        return None;
    }
    match find_entry(&d.entries, &comps[i]) {
        None => {
            proof {
                assert(seq_views(comps@)[i as int] == comps@[i as int]@);
            }
            None
        },
        Some(j) => {
            proof {
                assert(seq_views(comps@)[i as int] == comps@[i as int]@);
                assert(entries_model(d.entries@)[j as int] == (
                    d.entries@[j as int].0@,
                    art_model(d.entries@[j as int].1),
                ));
            }
            if i == comps.len() - 1 {
                Some(&d.entries[j].1)
            } else {
                match &d.entries[j].1 {
                    Artifact::Dir(sub) => dir_get(sub, comps, i + 1),
                    _ => None,
                }
            }
        },
    }
}

/// Builds the directory chain for the remaining components, ending in the
/// given value.
fn build_chain(comps: &Vec<Vec<u8>>, i: usize, value: Artifact) -> (r: Directory)
    requires
        i < comps@.len(),
    ensures
        model_insert(
            DirModel { entries: Seq::empty() },
            seq_views(comps@),
            i as int,
            art_model(value),
        ) == Result::<DirModel, UnpackError>::Ok(dir_model(r)),
    decreases comps@.len() - i,
{
    let name = copy_bytes(&comps[i]);
    let ghost vm = art_model(value);
    if i == comps.len() - 1 {
        let mut entries: Vec<(Vec<u8>, Artifact)> = Vec::new();
        let ghost e0 = entries@;
        entries.push((name, value));
        let d = Directory { entries };
        proof {
            assert(entries_model(e0) =~= Seq::<(Seq<u8>, ArtModel)>::empty());
            lemma_entries_model_push(e0, d.entries@[0]);
            assert(d.entries@ =~= e0.push(d.entries@[0]));
            assert(seq_views(comps@)[i as int] == comps@[i as int]@);
            assert(entries_model(d.entries@) =~= Seq::<(Seq<u8>, ArtModel)>::empty().push(
                (comps@[i as int]@, vm),
            ));
        }
        d
    } else {
        let sub = build_chain(comps, i + 1, value);
        let ghost subm = dir_model(sub);
        let mut entries: Vec<(Vec<u8>, Artifact)> = Vec::new();
        let ghost e0 = entries@;
        entries.push((name, Artifact::Dir(sub)));
        let d = Directory { entries };
        proof {
            assert(entries_model(e0) =~= Seq::<(Seq<u8>, ArtModel)>::empty());
            lemma_entries_model_push(e0, d.entries@[0]);
            assert(d.entries@ =~= e0.push(d.entries@[0]));
            assert(seq_views(comps@)[i as int] == comps@[i as int]@);
            assert(entries_model(d.entries@) =~= Seq::<(Seq<u8>, ArtModel)>::empty().push(
                (comps@[i as int]@, ArtModel::Dir(subm)),
            ));
        }
        d
    }
}

/// Binds a component path to an artifact in a directory, creating missing
/// intermediate directories.  On an error the directory is unchanged.
pub fn dir_insert(d: &mut Directory, comps: &Vec<Vec<u8>>, i: usize, value: Artifact) -> (r: Result<
    (),
    UnpackError,
>)
    requires
        i <= comps@.len(),
    ensures
        match r {
            Ok(_) => model_insert(
                dir_model(*old(d)),
                seq_views(comps@),
                i as int,
                art_model(value),
            ) == Result::<DirModel, UnpackError>::Ok(dir_model(*final(d))),
            Err(e) => model_insert(
                dir_model(*old(d)),
                seq_views(comps@),
                i as int,
                art_model(value),
            ) == Result::<DirModel, UnpackError>::Err(e) && dir_model(*final(d)) == dir_model(
                *old(d),
            ),
        },
    decreases comps@.len() - i,
{
    proof {
        lemma_entries_model_index(d.entries@);
    }
    if i >= comps.len() {
        return Err(UnpackError::EmptyPath);
    }
    let ghost vm = art_model(value);
    let name = copy_bytes(&comps[i]);
    proof {
        assert(seq_views(comps@)[i as int] == comps@[i as int]@);
    }
    match find_entry(&d.entries, &comps[i]) {
        Some(j) => {
            proof {
                lemma_model_find_character(entries_model(d.entries@), comps@[i as int]@);
                assert(entries_model(d.entries@)[j as int] == (
                    d.entries@[j as int].0@,
                    art_model(d.entries@[j as int].1),
                ));
                assert(d.entries@[j as int].0@ == comps@[i as int]@);
            }
            if i == comps.len() - 1 {
                let ghost before = d.entries@;
                d.entries[j] = (name, value);
                proof {
                    lemma_entries_model_update(before, j as int, comps@[i as int]@, vm);
                    assert(d.entries@ =~= before.update(
                        j as int,
                        (d.entries@[j as int].0, d.entries@[j as int].1),
                    ));
                    assert(entries_model(d.entries@) =~= entries_model(before).update(
                        j as int,
                        (comps@[i as int]@, vm),
                    ));
                }
                Ok(())
            } else {
                let ghost before = d.entries@;
                let entry = d.entries.remove(j);
                let (ename, evalue) = entry;
                proof {
                    assert(ename == before[j as int].0 && evalue == before[j as int].1);
                }
                match evalue {
                    Artifact::Dir(sub) => {
                        let mut sub = sub;
                        let ghost subm0 = dir_model(sub);
                        proof {
                            assert(art_model(before[j as int].1) == ArtModel::Dir(subm0));
                        }
                        let res = dir_insert(&mut sub, comps, i + 1, value);
                        let ghost subm1 = dir_model(sub);
                        d.entries.insert(j, (ename, Artifact::Dir(sub)));
                        proof {
                            assert(d.entries@ =~= before.update(
                                j as int,
                                (before[j as int].0, d.entries@[j as int].1),
                            ));
                            assert(before[j as int].0@ == comps@[i as int]@);
                            lemma_entries_model_update(
                                before,
                                j as int,
                                comps@[i as int]@,
                                ArtModel::Dir(subm1),
                            );
                            assert(entries_model(d.entries@) =~= entries_model(before).update(
                                j as int,
                                (comps@[i as int]@, ArtModel::Dir(subm1)),
                            ));
                        }
                        match res {
                            Ok(_) => Ok(()),
                            Err(e) => {
                                proof {
                                    assert(subm1 == subm0);
                                    assert(entries_model(before).update(
                                        j as int,
                                        (comps@[i as int]@, ArtModel::Dir(subm0)),
                                    ) =~= entries_model(before)) by {
                                        lemma_entries_model_index(before);
                                    }
                                }
                                Err(e)
                            },
                        }
                    },
                    other => {
                        proof {
                            assert(!(art_model(before[j as int].1) is Dir));
                        }
                        d.entries.insert(j, (ename, other));
                        proof {
                            assert(d.entries@ =~= before);
                        }
                        Err(UnpackError::NotADirectory)
                    },
                }
            }
        },
        None => {
            if i == comps.len() - 1 {
                let ghost before = d.entries@;
                d.entries.push((name, value));
                proof {
                    lemma_entries_model_push(before, d.entries@.last());
                    assert(d.entries@ =~= before.push(d.entries@.last()));
                    assert(entries_model(d.entries@) =~= entries_model(before).push(
                        (comps@[i as int]@, vm),
                    ));
                }
                Ok(())
            } else {
                let sub = build_chain(comps, i + 1, value);
                let ghost subm = dir_model(sub);
                let ghost before = d.entries@;
                d.entries.push((name, Artifact::Dir(sub)));
                proof {
                    lemma_entries_model_push(before, d.entries@.last());
                    assert(d.entries@ =~= before.push(d.entries@.last()));
                    assert(entries_model(d.entries@) =~= entries_model(before).push(
                        (comps@[i as int]@, ArtModel::Dir(subm)),
                    ));
                }
                Ok(())
            }
        },
    }
}

/// Updating one entry updates the model pointwise.
proof fn lemma_entries_model_update(
    s: Seq<(Vec<u8>, Artifact)>,
    j: int,
    name: Seq<u8>,
    v: ArtModel,
)
    requires
        0 <= j < s.len(),
    ensures
        forall|s2: Seq<(Vec<u8>, Artifact)>|
            (s2.len() == s.len() && (forall|t: int|
                0 <= t < s.len() && t != j ==> #[trigger] s2[t] == s[t]) && s2[j].0@ == name
                && art_model(s2[j].1) == v) ==> entries_model(s2) =~= entries_model(s).update(
                j,
                (name, v),
            ),
{
    assert forall|s2: Seq<(Vec<u8>, Artifact)>|
        (s2.len() == s.len() && (forall|t: int|
            0 <= t < s.len() && t != j ==> #[trigger] s2[t] == s[t]) && s2[j].0@ == name
            && art_model(s2[j].1) == v) implies entries_model(s2) =~= entries_model(s).update(
        j,
        (name, v),
    ) by {
        lemma_entries_model_index(s);
        lemma_entries_model_index(s2);
    }
}

// ------------------------------------------------------------------
// Resolving an unpack.
// ------------------------------------------------------------------

/// The artifact value of one archive entry against the directory built so
/// far, or the error it surfaces.
pub open spec fn entry_value(d: DirModel, e: ArchiveEntry) -> Result<ArtModel, UnpackError> {
    match e.kind {
        ArchiveEntryKind::Regular { contents, mode } => Result::Ok(
            ArtModel::File {
                blob: BlobHash(blake3_digest(contents@)),
                executable: mode & 0o100 != 0,
                resources: DirModel { entries: Seq::empty() },
            },
        ),
        ArchiveEntryKind::Symlink { target } => match target {
            Option::Some(t) => Result::Ok(ArtModel::Symlink { target: t@ }),
            Option::None => Result::Err(UnpackError::MissingLinkName),
        },
        ArchiveEntryKind::HardLink { target } => match target {
            Option::Some(t) => match model_get(d, split_path(t@), 0) {
                Option::Some(a) => Result::Ok(a),
                Option::None => Result::Err(UnpackError::LinkTargetNotFound),
            },
            Option::None => Result::Err(UnpackError::MissingLinkName),
        },
        ArchiveEntryKind::Dir => Result::Ok(ArtModel::Dir(DirModel { entries: Seq::empty() })),
        ArchiveEntryKind::Unsupported => Result::Err(UnpackError::UnsupportedEntryType),
    }
}

/// The directory built by folding the entries from position `i` over `d`,
/// or the first error paired with the offending entry's path.  Entries
/// with no path components are skipped.
pub open spec fn spec_unpack(d: DirModel, entries: Seq<ArchiveEntry>, i: int) -> Result<
    DirModel,
    (UnpackError, Seq<u8>),
>
    decreases entries.len() - i,
{
    if i < 0 || i >= entries.len() {
        Result::Ok(d)
    } else {
        match entry_value(d, entries[i]) {
            Result::Err(e) => Result::Err((e, entries[i].path@)),
            Result::Ok(v) => {
                let comps = split_path(entries[i].path@);
                if comps.len() == 0 {
                    spec_unpack(d, entries, i + 1)
                } else {
                    match model_insert(d, comps, 0, v) {
                        Result::Err(e) => Result::Err((e, entries[i].path@)),
                        Result::Ok(d2) => spec_unpack(d2, entries, i + 1),
                    }
                }
            },
        }
    }
}

/// The empty directory model.
pub open spec fn empty_dir_model() -> DirModel {
    DirModel { entries: Seq::empty() }
}

/// Folds parsed archive entries into a directory artifact, saving each
/// regular file's bytes into the blob store under a save permit.  Returns
/// exactly the directory the fold describes; after a successful run every
/// regular entry's blob is present in the store under the hash of its
/// contents.
pub fn resolve_unpack(
    blob_store: &mut BlobStore,
    gate: &mut SavePermitGate,
    entries: &Vec<ArchiveEntry>,
) -> (r: Result<Directory, UnpackFailure>)
    requires
        old(blob_store).wf(),
        old(gate).wf(),
        old(gate).spec_outstanding() < old(gate).spec_capacity(),
    ensures
        final(blob_store).wf(),
        final(gate).wf(),
        final(gate).spec_outstanding() == old(gate).spec_outstanding(),
        final(gate).spec_capacity() == old(gate).spec_capacity(),
        old(blob_store).dom().subset_of(final(blob_store).dom()),
        match r {
            Ok(dir) => {
                &&& spec_unpack(empty_dir_model(), entries@, 0) == Result::<
                    DirModel,
                    (UnpackError, Seq<u8>),
                >::Ok(dir_model(dir))
                &&& forall|j: int|
                    0 <= j < entries@.len() ==> ((#[trigger] entries@[j].kind) matches ArchiveEntryKind::Regular {
                        contents,
                        ..
                    } ==> final(blob_store).dom().contains(BlobHash(blake3_digest(contents@))))
            },
            Err(f) => spec_unpack(empty_dir_model(), entries@, 0) == Result::<
                DirModel,
                (UnpackError, Seq<u8>),
            >::Err((f.kind, f.path@)),
        },
{
    let mut dir = Directory::new();
    proof {
        assert(entries_model(dir.entries@) =~= Seq::<(Seq<u8>, ArtModel)>::empty());
    }
    let n = entries.len();
    let mut i: usize = 0;
    while i < n
        invariant
            i <= n,
            n == entries@.len(),
            blob_store.wf(),
            gate.wf(),
            gate.spec_outstanding() == old(gate).spec_outstanding(),
            gate.spec_capacity() == old(gate).spec_capacity(),
            gate.spec_outstanding() < gate.spec_capacity(),
            old(blob_store).dom().subset_of(blob_store.dom()),
            spec_unpack(dir_model(dir), entries@, i as int) == spec_unpack(
                empty_dir_model(),
                entries@,
                0,
            ),
            forall|j: int|
                0 <= j < i ==> ((#[trigger] entries@[j].kind) matches ArchiveEntryKind::Regular {
                    contents,
                    ..
                } ==> blob_store.dom().contains(BlobHash(blake3_digest(contents@)))),
        decreases n - i,
    {
        let value: Artifact = match &entries[i].kind {
            ArchiveEntryKind::Regular { contents, mode } => {
                let bytes = copy_bytes(contents);
                let permit = match gate.try_acquire() {
                    Some(p) => p,
                    None => {
                        proof {
                            assert(false);
                        }
                        return Err(
                            UnpackFailure {
                                kind: UnpackError::UnsupportedEntryType,
                                path: copy_bytes(&entries[i].path),
                            },
                        );
                    },
                };
                let h = blob_store.save_blob(&permit, bytes);
                gate.release(permit);
                Artifact::File {
                    blob: h,
                    executable: *mode & 0o100 != 0,
                    resources: Directory::new(),
                }
            },
            ArchiveEntryKind::Symlink { target } => match target {
                Some(t) => Artifact::Symlink { target: copy_bytes(t) },
                None => {
                    return Err(
                        UnpackFailure {
                            kind: UnpackError::MissingLinkName,
                            path: copy_bytes(&entries[i].path),
                        },
                    );
                },
            },
            ArchiveEntryKind::HardLink { target } => match target {
                Some(t) => {
                    let comps_t = split_path_exec(t);
                    match dir_get(&dir, &comps_t, 0) {
                        Some(a) => clone_artifact(a),
                        None => {
                            return Err(
                                UnpackFailure {
                                    kind: UnpackError::LinkTargetNotFound,
                                    path: copy_bytes(&entries[i].path),
                                },
                            );
                        },
                    }
                },
                None => {
                    return Err(
                        UnpackFailure {
                            kind: UnpackError::MissingLinkName,
                            path: copy_bytes(&entries[i].path),
                        },
                    );
                },
            },
            ArchiveEntryKind::Dir => Artifact::Dir(Directory::new()),
            ArchiveEntryKind::Unsupported => {
                return Err(
                    UnpackFailure {
                        kind: UnpackError::UnsupportedEntryType,
                        path: copy_bytes(&entries[i].path),
                    },
                );
            },
        };
        proof {
            assert(entry_value(dir_model(dir), entries@[i as int]) == Result::<
                ArtModel,
                UnpackError,
            >::Ok(art_model(value)));
        }
        let comps = split_path_exec(&entries[i].path);
        if comps.len() > 0 {
            match dir_insert(&mut dir, &comps, 0, value) {
                Ok(_) => {},
                Err(e) => {
                    return Err(UnpackFailure { kind: e, path: copy_bytes(&entries[i].path) });
                },
            }
        }
        i = i + 1;
    }
    Ok(dir)
}

} // verus!
