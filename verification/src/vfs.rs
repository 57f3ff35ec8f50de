//! The in-process virtual file system: contents cached by canonical path,
//! each entry carrying a stable dual-identity file id.
//!
//! An immutable VFS names a file by the BLAKE3 hash of its contents; a
//! mutable VFS names it by a fresh 128-bit id that survives edits.  The
//! invariant of the immutable form — a hash id always matches the hash of
//! its current contents — is part of the structure's well-formedness and
//! is preserved by every operation.

use vstd::prelude::*;

use crate::codec::{
    b32_fold, byte_of_hex_pair, hex_of_bytes, is_b32_digit, is_hex_digit, lemma_hex_digit_val,
    lemma_hex_of_bytes_index, lemma_ulid_round_trip, ulid_chars, ulid_decode, ulid_encode,
};
use crate::digest::{
    blake3_digest, bytes_of_digest, digest_from_bytes, digest_of_bytes, hash_bytes,
    lemma_digest_bytes_round_trip, push_digest_bytes, Digest,
};
use crate::keyed::{keys_of, lemma_map_of_dom, lemma_map_of_index, map_of, AssocMap, EqKey};

verus! {

/// The identity of a VFS entry: the content hash of a read-only file, or
/// a stable 128-bit id for a file being edited.
#[derive(Clone, Copy, PartialEq, Eq, Structural, Hash, Debug)]
pub enum FileId {
    Hash(Digest),
    Mutable(u128),
}

impl EqKey for FileId {
    fn eq_key(&self, other: &Self) -> (r: bool)
        ensures
            r == (self == other),
    {
        *self == *other
    }
}

/// An error surfaced by the VFS.
#[derive(Clone, Copy, Debug, PartialEq, Eq)]
pub enum VfsError {
    /// Content read back does not match the id's hash: corruption.
    HashMismatch,
    /// A mutable id has no content invariant to validate against.
    CannotValidateMutable,
    /// An update was attempted on a non-mutable id.
    NotMutable,
    /// The id is not present in the VFS.
    UnknownFileId,
    /// A freshly drawn mutable id collided with an existing one.
    DuplicateFileId,
    /// The text form has no valid parse as a file id.
    InvalidFileId,
}

impl VfsError {
    /// A short description of the error kind.
    pub fn describe(&self) -> (r: &'static str)
        ensures
            true,
    {
        match self {
            VfsError::HashMismatch => "file content does not match expected hash",
            VfsError::CannotValidateMutable => "tried to validate file ID match for mutable file",
            VfsError::NotMutable => "file must be mutable",
            VfsError::UnknownFileId => "file ID is not present in the VFS",
            VfsError::DuplicateFileId => "freshly drawn file ID already exists",
            VfsError::InvalidFileId => "invalid file ID",
        }
    }
}

/// The text form of a file id: 64 lowercase hex characters for a hash id,
/// 26 Crockford base32 characters for a mutable id.
pub open spec fn file_id_text(f: FileId) -> Seq<u8> {
    match f {
        FileId::Hash(d) => hex_of_bytes(bytes_of_digest(d)),
        FileId::Mutable(u) => ulid_chars(u),
    }
}

/// The bytes written as consecutive hex pairs.
pub open spec fn hex_decoded(s: Seq<u8>) -> Seq<u8> {
    Seq::new(s.len() / 2, |j: int| byte_of_hex_pair(s[2 * j], s[2 * j + 1]))
}

impl FileId {
    /// Prints the id in its text form.
    pub fn encode(&self) -> (r: Vec<u8>)
        ensures
            r@ == file_id_text(*self),
    {
        match self {
            FileId::Hash(d) => {
                let mut raw: Vec<u8> = Vec::new();
                push_digest_bytes(&mut raw, d);
                proof {
                    assert(raw@ =~= bytes_of_digest(*d));
                }
                crate::codec::hex_encode(raw.as_slice())
            },
            FileId::Mutable(u) => ulid_encode(*u),
        }
    }

    /// Parses the text form, by length: 26 characters give a mutable id,
    /// 64 a hash id, anything else is an error.
    pub fn parse(s: &[u8]) -> (r: Result<FileId, VfsError>)
        ensures
            match r {
                Ok(f) => match f {
                    FileId::Mutable(u) => s@.len() == 26 && (forall|i: int|
                        0 <= i < 26 ==> is_b32_digit(#[trigger] s@[i])) && u == b32_fold(s@),
                    FileId::Hash(d) => s@.len() == 64 && (forall|i: int|
                        0 <= i < 64 ==> is_hex_digit(#[trigger] s@[i])) && d == digest_of_bytes(
                        hex_decoded(s@),
                    ),
                },
                Err(e) => {
                    &&& e == VfsError::InvalidFileId
                    &&& !(s@.len() == 26 && (forall|i: int|
                        0 <= i < 26 ==> is_b32_digit(#[trigger] s@[i])))
                    &&& !(s@.len() == 64 && (forall|i: int|
                        0 <= i < 64 ==> is_hex_digit(#[trigger] s@[i])))
                },
            },
    {
        let n = s.len();
        if n == 26 {
            match ulid_decode(s) {
                Some(u) => Ok(FileId::Mutable(u)),
                None => Err(VfsError::InvalidFileId),
            }
        } else if n == 64 {
            match crate::codec::hex_decode(s) {
                Some(bytes) => {
                    proof {
                        assert(bytes@ =~= hex_decoded(s@));
                    }
                    let d = digest_from_bytes(bytes.as_slice());
                    Ok(FileId::Hash(d))
                },
                None => Err(VfsError::InvalidFileId),
            }
        } else {
            Err(VfsError::InvalidFileId)
        }
    }

    /// For a hash id, rehashes the content and compares; a mutable id has
    /// nothing to validate against.  Succeeds exactly when the id is a
    /// hash id matching the content.
    pub fn validate_matches(&self, content: &[u8]) -> (r: Result<(), VfsError>)
        ensures
            match r {
                Ok(_) => self matches FileId::Hash(h) && h == blake3_digest(content@),
                Err(e) => match self {
                    FileId::Hash(h) => e == VfsError::HashMismatch && h != blake3_digest(content@),
                    FileId::Mutable(_) => e == VfsError::CannotValidateMutable,
                },
            },
    {
        match self {
            FileId::Hash(h) => {
                let actual = hash_bytes(content);
                if actual == *h {
                    Ok(())
                } else {
                    Err(VfsError::HashMismatch)
                }
            },
            FileId::Mutable(_) => Err(VfsError::CannotValidateMutable),
        }
    }
}

/// Every valid file id round-trips through its text form: the printed
/// form parses back to the same id, for both variants.
pub proof fn lemma_file_id_round_trip(f: FileId)
    ensures
        match f {
            FileId::Mutable(u) => {
                &&& file_id_text(f).len() == 26
                &&& forall|i: int| 0 <= i < 26 ==> is_b32_digit(#[trigger] file_id_text(f)[i])
                &&& b32_fold(file_id_text(f)) == u
            },
            FileId::Hash(d) => {
                &&& file_id_text(f).len() == 64
                &&& forall|i: int| 0 <= i < 64 ==> is_hex_digit(#[trigger] file_id_text(f)[i])
                &&& digest_of_bytes(hex_decoded(file_id_text(f))) == d
            },
        },
{
    match f {
        FileId::Mutable(u) => {
            lemma_ulid_round_trip(u);
        },
        FileId::Hash(d) => {
            let raw = bytes_of_digest(d);
            lemma_digest_bytes_round_trip(d);
            lemma_hex_of_bytes_index(raw);
            let text = hex_of_bytes(raw);
            assert forall|i: int| 0 <= i < 64 implies is_hex_digit(#[trigger] text[i]) by {
                let j = i / 2;
                lemma_hex_digit_val((raw[j] / 16) as u8);
                lemma_hex_digit_val((raw[j] % 16) as u8);
                if i % 2 == 0 {
                    assert(text[2 * j] == crate::codec::hex_digit((raw[j] / 16) as u8));
                    assert(i == 2 * j);
                } else {
                    assert(text[2 * j + 1] == crate::codec::hex_digit((raw[j] % 16) as u8));
                    assert(i == 2 * j + 1);
                }
            }
            assert(hex_decoded(text) =~= raw) by {
                assert forall|j: int| 0 <= j < 32 implies hex_decoded(text)[j] == raw[j] by {
                    lemma_hex_digit_val((raw[j] / 16) as u8);
                    lemma_hex_digit_val((raw[j] % 16) as u8);
                }
            }
        },
    }
}

/// Relies on `ulid::Ulid::new`: a fresh 128-bit id drawn from the clock
/// and randomness.  Nothing is promised of its value.
#[verifier::external_body]
fn new_ulid() -> (r: u128) {
    ulid::Ulid::new().0
}

/// Compares two byte strings.
pub fn bytes_eq(a: &Vec<u8>, b: &Vec<u8>) -> (r: bool)
    ensures
        r == (a@ == b@),
{
    let n = a.len();
    if n != b.len() {
        proof {
            assert(a@.len() != b@.len());
        }
        return false;
    }
    let mut i: usize = 0;
    while i < n
        invariant
            i <= n,
            n == a@.len(),
            n == b@.len(),
            forall|j: int| 0 <= j < i ==> a@[j] == b@[j],
        decreases n - i,
    {
        if a[i] != b[i] {
            return false;
        }
        i = i + 1;
    }
    proof {
        assert(a@ =~= b@);
    }
    true
}

/// The canonical-path table: paths to file ids, keyed by the path bytes.
pub struct PathTable {
    pairs: Vec<(Vec<u8>, FileId)>,
}

/// The pair sequence seen through the paths' views.
pub open spec fn path_entry_views(s: Seq<(Vec<u8>, FileId)>) -> Seq<(Seq<u8>, FileId)> {
    s.map_values(|p: (Vec<u8>, FileId)| (p.0@, p.1))
}

impl PathTable {
    /// The mathematical map this table holds, keyed by path bytes.
    pub closed spec fn view_map(self) -> Map<Seq<u8>, FileId> {
        map_of(path_entry_views(self.pairs@))
    }

    pub closed spec fn wf(self) -> bool {
        keys_of(path_entry_views(self.pairs@)).no_duplicates()
    }

    pub fn new() -> (r: PathTable)
        ensures
            r.wf(),
            r.view_map() =~= Map::<Seq<u8>, FileId>::empty(),
    {
        let r = PathTable { pairs: Vec::new() };
        proof {
            assert(path_entry_views(r.pairs@) =~= Seq::<(Seq<u8>, FileId)>::empty());
        }
        r
    }

    fn find(&self, path: &Vec<u8>) -> (r: Option<usize>)
        ensures
            match r {
                Some(i) => i < self.pairs@.len() && self.pairs@[i as int].0@ == path@,
                None => forall|i: int|
                    0 <= i < self.pairs@.len() ==> (#[trigger] self.pairs@[i]).0@ != path@,
            },
    {
        let n = self.pairs.len();
        let mut i: usize = 0;
        while i < n
            invariant
                i <= n,
                n == self.pairs@.len(),
                forall|j: int| 0 <= j < i ==> (#[trigger] self.pairs@[j]).0@ != path@,
            decreases n - i,
        {
            if bytes_eq(&self.pairs[i].0, path) {
                return Some(i);
            }
            i = i + 1;
        }
        None
    }

    pub fn get(&self, path: &Vec<u8>) -> (r: Option<FileId>)
        requires
            self.wf(),
        ensures
            match r {
                Some(id) => self.view_map().dom().contains(path@) && id == self.view_map()[path@],
                None => !self.view_map().dom().contains(path@),
            },
    {
        proof {
            lemma_map_of_dom(path_entry_views(self.pairs@));
        }
        match self.find(path) {
            Some(i) => {
                proof {
                    lemma_map_of_index(path_entry_views(self.pairs@), i as int);
                    assert(path_entry_views(self.pairs@)[i as int].0 == path@);
                }
                Some(self.pairs[i].1)
            },
            None => {
                proof {
                    if self.view_map().dom().contains(path@) {
                        let views = path_entry_views(self.pairs@);
                        let i = choose|i: int|
                            0 <= i < keys_of(views).len() && keys_of(views)[i] == path@;
                        assert(self.pairs@[i].0@ == path@);
                    }
                }
                None
            },
        }
    }

    /// Binds `path` to `id`, replacing any earlier binding.
    pub fn insert(&mut self, path: Vec<u8>, id: FileId)
        requires
            old(self).wf(),
        ensures
            final(self).wf(),
            final(self).view_map() =~= old(self).view_map().insert(path@, id),
    {
        proof {
            lemma_map_of_dom(path_entry_views(self.pairs@));
        }
        match self.find(&path) {
            Some(i) => {
                let ghost before = path_entry_views(self.pairs@);
                self.pairs[i] = (path, id);
                proof {
                    assert(path_entry_views(self.pairs@) =~= before.update(i as int, (path@, id)));
                    assert(keys_of(before)[i as int] == path@);
                    assert(keys_of(path_entry_views(self.pairs@)) =~= keys_of(before));
                    crate::keyed::lemma_map_of_update(before, i as int, path@, id);
                }
            },
            None => {
                let ghost before = path_entry_views(self.pairs@);
                self.pairs.push((path, id));
                proof {
                    assert(path_entry_views(self.pairs@).drop_last() =~= before);
                    assert(path_entry_views(self.pairs@).last() == (path@, id));
                    let knew = keys_of(path_entry_views(self.pairs@));
                    let kold = keys_of(before);
                    assert(knew.drop_last() =~= kold);
                    assert forall|a: int, b: int|
                        0 <= a < b < knew.len() implies knew[a] != knew[b] by {
                        if b < kold.len() {
                            assert(knew[a] == kold[a] && knew[b] == kold[b]);
                        } else {
                            assert(knew[b] == path@);
                            assert(knew[a] == before[a].0);
                        }
                    }
                    assert(knew.no_duplicates());
                }
            },
        }
    }
}

/// Copies a list of paths; the views are unchanged.
fn copy_paths(v: &Vec<Vec<u8>>) -> (r: Vec<Vec<u8>>)
    ensures
        r@.len() == v@.len(),
        forall|i: int| 0 <= i < v@.len() ==> (#[trigger] r@[i])@ == v@[i]@,
{
    let n = v.len();
    let mut out: Vec<Vec<u8>> = Vec::new();
    let mut i: usize = 0;
    while i < n
        invariant
            i <= n,
            n == v@.len(),
            out@.len() == i,
            forall|j: int| 0 <= j < i ==> (#[trigger] out@[j])@ == v@[j]@,
        decreases n - i,
    {
        out.push(crate::recipe::copy_bytes(&v[i]));
        i = i + 1;
    }
    out
}

/// The virtual file system: contents by file id, a canonical-path table,
/// and the reverse table from ids to the paths that share them.
pub struct Vfs {
    mutable: bool,
    contents: AssocMap<FileId, Vec<u8>>,
    locations_to_ids: PathTable,
    ids_to_locations: AssocMap<FileId, Vec<Vec<u8>>>,
}

impl Vfs {
    /// Whether this VFS hands out mutable ids.
    pub closed spec fn is_mutable(self) -> bool {
        self.mutable
    }

    /// Contents by file id.
    pub closed spec fn contents_map(self) -> Map<FileId, Vec<u8>> {
        self.contents.view_map()
    }

    /// File ids by canonical path.
    pub closed spec fn locations_map(self) -> Map<Seq<u8>, FileId> {
        self.locations_to_ids.view_map()
    }

    /// Paths by file id.
    pub closed spec fn reverse_map(self) -> Map<FileId, Vec<Vec<u8>>> {
        self.ids_to_locations.view_map()
    }

    /// Well-formedness: a hash id always matches the BLAKE3 hash of its
    /// current contents; an immutable VFS holds only hash ids, a mutable
    /// one only mutable ids; every path resolves to present contents; and
    /// each path appears in the reverse table of its id.
    pub closed spec fn inv(self) -> bool {
        &&& self.contents.wf()
        &&& self.locations_to_ids.wf()
        &&& self.ids_to_locations.wf()
        &&& forall|id: FileId| #[trigger]
            self.contents_map().dom().contains(id) ==> (id matches FileId::Hash(h) ==> blake3_digest(
                self.contents_map()[id]@,
            ) == h)
        &&& !self.is_mutable() ==> forall|id: FileId| #[trigger]
            self.contents_map().dom().contains(id) ==> id is Hash
        &&& self.is_mutable() ==> forall|id: FileId| #[trigger]
            self.contents_map().dom().contains(id) ==> id is Mutable
        &&& forall|p: Seq<u8>| #[trigger]
            self.locations_map().dom().contains(p) ==> {
                &&& self.contents_map().dom().contains(self.locations_map()[p])
                &&& self.reverse_map().dom().contains(self.locations_map()[p])
                &&& exists|i: int|
                    0 <= i < self.reverse_map()[self.locations_map()[p]]@.len() && (
                    #[trigger] self.reverse_map()[self.locations_map()[p]]@[i])@ == p
            }
        &&& forall|id: FileId| #[trigger]
            self.contents_map().dom().contains(id) ==> self.reverse_map().dom().contains(id)
    }

    /// A VFS whose entries are named by the hash of their contents.
    pub fn immutable() -> (r: Vfs)
        ensures
            r.inv(),
            !r.is_mutable(),
            r.contents_map() =~= Map::<FileId, Vec<u8>>::empty(),
            r.locations_map() =~= Map::<Seq<u8>, FileId>::empty(),
            r.reverse_map() =~= Map::<FileId, Vec<Vec<u8>>>::empty(),
    {
        Vfs {
            mutable: false,
            contents: AssocMap::new(),
            locations_to_ids: PathTable::new(),
            ids_to_locations: AssocMap::new(),
        }
    }

    /// A VFS whose entries keep a stable id across edits.
    pub fn mutable() -> (r: Vfs)
        ensures
            r.inv(),
            r.is_mutable(),
            r.contents_map() =~= Map::<FileId, Vec<u8>>::empty(),
            r.locations_map() =~= Map::<Seq<u8>, FileId>::empty(),
            r.reverse_map() =~= Map::<FileId, Vec<Vec<u8>>>::empty(),
    {
        Vfs {
            mutable: true,
            contents: AssocMap::new(),
            locations_to_ids: PathTable::new(),
            ids_to_locations: AssocMap::new(),
        }
    }

    /// Looks a canonical path up in the cache; returns the id and a copy
    /// of the contents when present.
    pub fn load_cached(&self, path: &Vec<u8>) -> (r: Option<(FileId, Vec<u8>)>)
        requires
            self.inv(),
        ensures
            match r {
                Some((id, bytes)) => {
                    &&& self.locations_map().dom().contains(path@)
                    &&& id == self.locations_map()[path@]
                    &&& self.contents_map().dom().contains(id)
                    &&& bytes@ == self.contents_map()[id]@
                },
                None => !self.locations_map().dom().contains(path@),
            },
    {
        match self.locations_to_ids.get(path) {
            Some(id) => {
                let bytes = self.contents.get(&id);
                match bytes {
                    Some(b) => Some((id, crate::recipe::copy_bytes(b))),
                    None => {
                        proof {
                            assert(false);
                        }
                        None
                    },
                }
            },
            None => None,
        }
    }

    /// Reads the contents stored under an id, when present.
    pub fn read(&self, id: FileId) -> (r: Option<Vec<u8>>)
        requires
            self.inv(),
        ensures
            match r {
                Some(bytes) => self.contents_map().dom().contains(id) && bytes@
                    == self.contents_map()[id]@,
                None => !self.contents_map().dom().contains(id),
            },
    {
        match self.contents.get(&id) {
            Some(b) => Some(crate::recipe::copy_bytes(b)),
            None => None,
        }
    }

    /// Records a file in a mutable VFS under the given id: exactly when
    /// the id is not yet present, the contents, path and reverse tables
    /// gain the entry; an id already present is reported and nothing
    /// changes.  `insert_loaded` draws the id and delegates here, so what
    /// happens for each possible draw is pinned down.
    pub fn insert_with_id(&mut self, path: Vec<u8>, bytes: Vec<u8>, id: FileId) -> (r: Result<
        FileId,
        VfsError,
    >)
        requires
            old(self).inv(),
            !old(self).locations_map().dom().contains(path@),
            old(self).is_mutable(),
            id is Mutable,
        ensures
            final(self).inv(),
            final(self).is_mutable() == old(self).is_mutable(),
            match r {
                Ok(rid) => {
                    &&& rid == id
                    &&& !old(self).contents_map().dom().contains(id)
                    &&& final(self).contents_map().dom() =~= old(self).contents_map().dom().insert(
                        id,
                    )
                    &&& final(self).contents_map()[id]@ == bytes@
                    &&& forall|id2: FileId| #[trigger]
                        old(self).contents_map().dom().contains(id2) && id2 != id ==> final(self).contents_map()[id2] == old(self).contents_map()[id2]
                    &&& final(self).locations_map() =~= old(self).locations_map().insert(path@, id)
                    &&& final(self).reverse_map().dom() =~= old(self).reverse_map().dom().insert(
                        id,
                    )
                    &&& final(self).reverse_map()[id]@.len() == 1
                    &&& final(self).reverse_map()[id]@[0]@ == path@
                    &&& forall|id2: FileId| #[trigger]
                        old(self).reverse_map().dom().contains(id2) && id2 != id ==> final(self).reverse_map()[id2] == old(self).reverse_map()[id2]
                },
                Err(e) => {
                    &&& e == VfsError::DuplicateFileId
                    &&& old(self).contents_map().dom().contains(id)
                    &&& final(self).contents_map() == old(self).contents_map()
                    &&& final(self).locations_map() == old(self).locations_map()
                    &&& final(self).reverse_map() == old(self).reverse_map()
                },
            },
    {
        if self.contents.contains_key(&id) {
            return Err(VfsError::DuplicateFileId);
        }
        let ghost pre = *self;
        let path2 = crate::recipe::copy_bytes(&path);
        self.contents.insert(id, bytes);
        self.locations_to_ids.insert(path, id);
        let mut locs: Vec<Vec<u8>> = Vec::new();
        locs.push(path2);
        self.ids_to_locations.insert(id, locs);
        proof {
            lemma_vfs_insert_fresh(pre, *self, path@, id);
            assert(self.reverse_map().dom() =~= pre.reverse_map().dom().insert(id));
        }
        Ok(id)
    }

    /// Inserts a file read from disk under a fresh id: the hash of its
    /// contents in an immutable VFS, a freshly drawn mutable id otherwise.
    /// The caller resolves the path and reads the bytes; this records
    /// them.  In an immutable VFS a second path with identical contents
    /// joins the existing entry.  Fails only when a freshly drawn mutable
    /// id collides with an existing one.
    pub fn insert_loaded(&mut self, path: Vec<u8>, bytes: Vec<u8>) -> (r: Result<FileId, VfsError>)
        requires
            old(self).inv(),
            !old(self).locations_map().dom().contains(path@),
        ensures
            final(self).inv(),
            final(self).is_mutable() == old(self).is_mutable(),
            match r {
                Ok(id) => {
                    &&& (!old(self).is_mutable() ==> id == FileId::Hash(blake3_digest(bytes@)))
                    &&& (old(self).is_mutable() ==> id is Mutable && !old(self).contents_map().dom().contains(id))
                    &&& final(self).contents_map().dom() =~= old(self).contents_map().dom().insert(
                        id,
                    )
                    &&& final(self).contents_map()[id]@ == bytes@
                    &&& forall|id2: FileId| #[trigger]
                        old(self).contents_map().dom().contains(id2) && id2 != id ==> final(self).contents_map()[id2] == old(self).contents_map()[id2]
                    &&& final(self).locations_map() =~= old(self).locations_map().insert(path@, id)
                    &&& final(self).reverse_map().dom() =~= old(self).reverse_map().dom().insert(
                        id,
                    )
                    &&& forall|id2: FileId| #[trigger]
                        old(self).reverse_map().dom().contains(id2) && id2 != id ==> final(self).reverse_map()[id2] == old(self).reverse_map()[id2]
                    &&& (if old(self).contents_map().dom().contains(id) {
                        // a path joining an existing entry extends its
                        // path list by the new path
                        &&& final(self).reverse_map()[id]@.len() == old(self).reverse_map()[id]@.len() + 1
                        &&& forall|k: int|
                            0 <= k < old(self).reverse_map()[id]@.len() ==> (#[trigger] final(self).reverse_map()[id]@[k])@ == old(self).reverse_map()[id]@[k]@
                        &&& final(self).reverse_map()[id]@[old(self).reverse_map()[id]@.len() as int]@ == path@
                    } else {
                        // a fresh entry lists exactly the new path
                        &&& final(self).reverse_map()[id]@.len() == 1
                        &&& final(self).reverse_map()[id]@[0]@ == path@
                    })
                },
                Err(e) => {
                    &&& e == VfsError::DuplicateFileId
                    &&& old(self).is_mutable()
                    &&& exists|id2: FileId|
                        #[trigger] old(self).contents_map().dom().contains(id2) && id2 is Mutable
                    &&& final(self).contents_map() == old(self).contents_map()
                    &&& final(self).locations_map() == old(self).locations_map()
                    &&& final(self).reverse_map() == old(self).reverse_map()
                },
            },
    {
        if self.mutable {
            let id = FileId::Mutable(new_ulid());
            self.insert_with_id(path, bytes, id)
        } else {
            let id = FileId::Hash(hash_bytes(bytes.as_slice()));
            if self.contents.contains_key(&id) {
                // content with this hash is already present: replace it
                // with the byte-equal read and let the path join the
                // existing entry
                let ghost pre = *self;
                proof {
                    assert(pre.contents_map().dom().contains(id));
                    assert(pre.reverse_map().dom().contains(id));
                }
                let path2 = crate::recipe::copy_bytes(&path);
                self.contents.insert(id, bytes);
                self.locations_to_ids.insert(path, id);
                let locs = match self.ids_to_locations.get(&id) {
                    Some(l) => {
                        let mut l2 = copy_paths(l);
                        l2.push(path2);
                        l2
                    },
                    None => {
                        proof {
                            assert(false);
                        }
                        Vec::new()
                    },
                };
                self.ids_to_locations.insert(id, locs);
                proof {
                    lemma_vfs_join_existing(pre, *self, path@, id);
                    assert(self.contents_map().dom() =~= pre.contents_map().dom().insert(id));
                    assert(self.reverse_map().dom() =~= pre.reverse_map().dom().insert(id));
                }
                Ok(id)
            } else {
                let ghost pre = *self;
                let path2 = crate::recipe::copy_bytes(&path);
                self.contents.insert(id, bytes);
                self.locations_to_ids.insert(path, id);
                let mut locs: Vec<Vec<u8>> = Vec::new();
                locs.push(path2);
                self.ids_to_locations.insert(id, locs);
                proof {
                    lemma_vfs_insert_fresh(pre, *self, path@, id);
                    assert(self.reverse_map().dom() =~= pre.reverse_map().dom().insert(id));
                }
                Ok(id)
            }
        }
    }

    /// Replaces the contents behind a mutable id; every path sharing the
    /// id observes the new contents.  Only legal for mutable ids that are
    /// present.
    pub fn update(&mut self, id: FileId, bytes: Vec<u8>) -> (r: Result<(), VfsError>)
        requires
            old(self).inv(),
        ensures
            final(self).inv(),
            final(self).is_mutable() == old(self).is_mutable(),
            final(self).locations_map() == old(self).locations_map(),
            final(self).reverse_map() == old(self).reverse_map(),
            match r {
                Ok(_) => {
                    &&& id is Mutable
                    &&& old(self).contents_map().dom().contains(id)
                    &&& final(self).contents_map().dom() =~= old(self).contents_map().dom()
                    &&& final(self).contents_map()[id]@ == bytes@
                    &&& forall|id2: FileId| #[trigger]
                        old(self).contents_map().dom().contains(id2) && id2 != id ==> final(self).contents_map()[id2] == old(self).contents_map()[id2]
                },
                Err(e) => {
                    &&& final(self).contents_map() == old(self).contents_map()
                    &&& match e {
                        VfsError::NotMutable => !(id is Mutable),
                        VfsError::UnknownFileId => id is Mutable && !old(self).contents_map().dom().contains(id),
                        _ => false,
                    }
                },
            },
    {
        match id {
            FileId::Mutable(_) => {},
            FileId::Hash(_) => {
                return Err(VfsError::NotMutable);
            },
        }
        if !self.contents.contains_key(&id) {
            return Err(VfsError::UnknownFileId);
        }
        let ghost pre = *self;
        self.contents.insert(id, bytes);
        proof {
            assert(self.contents_map().dom() =~= pre.contents_map().dom());
            assert forall|p: Seq<u8>| #[trigger]
                self.locations_map().dom().contains(p) implies {
                &&& self.contents_map().dom().contains(self.locations_map()[p])
                &&& self.reverse_map().dom().contains(self.locations_map()[p])
                &&& exists|i: int|
                    0 <= i < self.reverse_map()[self.locations_map()[p]]@.len() && (
                    #[trigger] self.reverse_map()[self.locations_map()[p]]@[i])@ == p
            } by {
                assert(pre.locations_map().dom().contains(p));
                let oid = pre.locations_map()[p];
                let i = choose|i: int|
                    0 <= i < pre.reverse_map()[oid]@.len() && (#[trigger] pre.reverse_map(
                    )[oid]@[i])@ == p;
                assert(self.reverse_map()[oid]@[i]@ == p);
            }
        }
        Ok(())
    }
}

/// Inserting a fresh entry under a new id and a new path keeps the VFS
/// well-formed.
proof fn lemma_vfs_insert_fresh(pre: Vfs, post: Vfs, path: Seq<u8>, id: FileId)
    requires
        pre.inv(),
        !pre.locations_map().dom().contains(path),
        !pre.contents_map().dom().contains(id),
        post.is_mutable() == pre.is_mutable(),
        pre.is_mutable() ==> id is Mutable,
        !pre.is_mutable() ==> (id matches FileId::Hash(h) && blake3_digest(
            post.contents_map()[id]@,
        ) == h),
        post.contents.wf(),
        post.locations_to_ids.wf(),
        post.ids_to_locations.wf(),
        post.contents_map() == pre.contents_map().insert(id, post.contents_map()[id]),
        post.locations_map() == pre.locations_map().insert(path, id),
        post.reverse_map() == pre.reverse_map().insert(id, post.reverse_map()[id]),
        post.reverse_map()[id]@.len() == 1,
        post.reverse_map()[id]@[0]@ == path,
    ensures
        post.inv(),
{
    assert forall|p: Seq<u8>| #[trigger] post.locations_map().dom().contains(p) implies {
        &&& post.contents_map().dom().contains(post.locations_map()[p])
        &&& post.reverse_map().dom().contains(post.locations_map()[p])
        &&& exists|i: int|
            0 <= i < post.reverse_map()[post.locations_map()[p]]@.len() && (
            #[trigger] post.reverse_map()[post.locations_map()[p]]@[i])@ == p
    } by {
        if p == path {
            assert(post.reverse_map()[id]@[0]@ == p);
        } else {
            assert(pre.locations_map().dom().contains(p));
            let old_id = pre.locations_map()[p];
            assert(old_id != id);
            let i = choose|i: int|
                0 <= i < pre.reverse_map()[old_id]@.len() && (#[trigger] pre.reverse_map(
                )[old_id]@[i])@ == p;
            assert(post.reverse_map()[old_id]@[i]@ == p);
        }
    }
}

/// Adding a second path to an existing hash entry keeps the VFS
/// well-formed.
proof fn lemma_vfs_join_existing(pre: Vfs, post: Vfs, path: Seq<u8>, id: FileId)
    requires
        pre.inv(),
        !pre.locations_map().dom().contains(path),
        pre.contents_map().dom().contains(id),
        post.is_mutable() == pre.is_mutable(),
        post.contents.wf(),
        post.locations_to_ids.wf(),
        post.ids_to_locations.wf(),
        post.contents_map() == pre.contents_map().insert(id, post.contents_map()[id]),
        id matches FileId::Hash(h) ==> blake3_digest(post.contents_map()[id]@) == h,
        !pre.is_mutable() ==> id is Hash,
        pre.is_mutable() ==> id is Mutable,
        post.locations_map() == pre.locations_map().insert(path, id),
        post.reverse_map() == pre.reverse_map().insert(id, post.reverse_map()[id]),
        pre.reverse_map().dom().contains(id),
        post.reverse_map()[id]@.len() == pre.reverse_map()[id]@.len() + 1,
        forall|i: int|
            0 <= i < pre.reverse_map()[id]@.len() ==> (#[trigger] post.reverse_map()[id]@[i])@
                == pre.reverse_map()[id]@[i]@,
        post.reverse_map()[id]@[pre.reverse_map()[id]@.len() as int]@ == path,
    ensures
        post.inv(),
{
    assert forall|p: Seq<u8>| #[trigger] post.locations_map().dom().contains(p) implies {
        &&& post.contents_map().dom().contains(post.locations_map()[p])
        &&& post.reverse_map().dom().contains(post.locations_map()[p])
        &&& exists|i: int|
            0 <= i < post.reverse_map()[post.locations_map()[p]]@.len() && (
            #[trigger] post.reverse_map()[post.locations_map()[p]]@[i])@ == p
    } by {
        if p == path {
            assert(post.reverse_map()[id]@[pre.reverse_map()[id]@.len() as int]@ == p);
        } else {
            assert(pre.locations_map().dom().contains(p));
            let old_id = pre.locations_map()[p];
            let i = choose|i: int|
                0 <= i < pre.reverse_map()[old_id]@.len() && (#[trigger] pre.reverse_map(
                )[old_id]@[i])@ == p;
            if old_id == id {
                assert(post.reverse_map()[id]@[i]@ == p);
            } else {
                assert(post.reverse_map()[old_id] == pre.reverse_map()[old_id]);
                assert(post.reverse_map()[old_id]@[i]@ == p);
            }
        }
    }
}

/// The three tables are mutually consistent: a cached path resolves to
/// present contents, and is listed in the reverse table of its id.
pub proof fn lemma_vfs_tables_consistent(vfs: Vfs, path: Seq<u8>)
    requires
        vfs.inv(),
        vfs.locations_map().dom().contains(path),
    ensures
        vfs.contents_map().dom().contains(vfs.locations_map()[path]),
        vfs.reverse_map().dom().contains(vfs.locations_map()[path]),
        exists|i: int|
            0 <= i < vfs.reverse_map()[vfs.locations_map()[path]]@.len() && (
            #[trigger] vfs.reverse_map()[vfs.locations_map()[path]]@[i])@ == path,
{
}

/// In an immutable VFS, a hash id in the contents table always matches
/// the BLAKE3 hash of its current contents.
pub proof fn lemma_immutable_vfs_hash_ids(vfs: Vfs, h: Digest)
    requires
        vfs.inv(),
        !vfs.is_mutable(),
        vfs.contents_map().dom().contains(FileId::Hash(h)),
    ensures
        blake3_digest(vfs.contents_map()[FileId::Hash(h)]@) == h,
{
}

} // verus!
