//! Recipes, artifacts and their content hashes.
//!
//! A recipe describes one build step; an artifact is the canonical,
//! fully-resolved value a recipe bakes to.  Both are content-addressed:
//! their hash is the BLAKE3 digest of a canonical serialized form with a
//! stable field order, length-prefixed byte strings and explicit tag bytes.
//!
//! Contracts speak of values through three projections: the canonical
//! serialization, the embedded child recipe hashes, and the embedded blob
//! hashes.  Two values with the same serialization agree on everything the
//! engine ever reads from them.

use vstd::prelude::*;

use crate::digest::{
    blake3_digest, bytes_of_digest, bytes_of_word, hash_bytes, push_digest_bytes, push_word_bytes,
    ArtifactHash, BlobHash, RecipeHash,
};

verus! {

/// A directory artifact: named entries mapping a path component to a child
/// artifact.
#[derive(Debug, PartialEq, Eq)]
pub struct Directory {
    pub entries: Vec<(Vec<u8>, Artifact)>,
}

/// A canonical, fully-resolved value: a file backed by a blob, a directory,
/// or a symlink.
#[derive(Debug, PartialEq, Eq)]
pub enum Artifact {
    File { blob: BlobHash, executable: bool, resources: Directory },
    Dir(Directory),
    Symlink { target: Vec<u8> },
}

/// A description of one build step.  Child recipes are embedded by hash;
/// blob contents are embedded by blob hash.
#[derive(Debug, PartialEq, Eq)]
pub enum Recipe {
    /// A literal, fully-resolved artifact.
    Complete(Artifact),
    /// Fetch the bytes behind a URL.
    Download { url: Vec<u8> },
    /// Unpack the archive produced by a child recipe.
    Unpack { archive: RecipeHash },
    /// Run a command in a sandbox over baked dependencies.
    Process { command: Vec<u8>, args: Vec<Vec<u8>>, dependencies: Vec<RecipeHash> },
    /// A file literal backed by a stored blob.
    CreateFile { blob: BlobHash, executable: bool },
    /// Compose a directory from named child recipes.
    CreateDirectory { entries: Vec<(Vec<u8>, RecipeHash)> },
    /// A symlink literal.
    CreateSymlink { target: Vec<u8> },
    /// Merge the directories baked from child recipes.
    Merge { directories: Vec<RecipeHash> },
}

impl Directory {
    pub fn new() -> (r: Directory)
        ensures
            r.entries@.len() == 0,
    {
        Directory { entries: Vec::new() }
    }
}

// ------------------------------------------------------------------
// The mathematical model of artifacts and directories.
// ------------------------------------------------------------------

/// The mathematical value of a directory: entries as a sequence of
/// (component, artifact value) pairs.
pub struct DirModel {
    pub entries: Seq<(Seq<u8>, ArtModel)>,
}

/// The mathematical value of an artifact.
pub enum ArtModel {
    File { blob: BlobHash, executable: bool, resources: DirModel },
    Dir(DirModel),
    Symlink { target: Seq<u8> },
}

/// The model of an artifact value.
pub open spec fn art_model(a: Artifact) -> ArtModel
    decreases a,
{
    match a {
        Artifact::File { blob, executable, resources } => ArtModel::File {
            blob,
            executable,
            resources: dir_model(resources),
        },
        Artifact::Dir(d) => ArtModel::Dir(dir_model(d)),
        Artifact::Symlink { target } => ArtModel::Symlink { target: target@ },
    }
}

/// The model of a directory value.
pub open spec fn dir_model(d: Directory) -> DirModel
    decreases d,
{
    DirModel { entries: entries_model(d.entries@) }
}

/// The model of an entry list, in order.
pub open spec fn entries_model(s: Seq<(Vec<u8>, Artifact)>) -> Seq<(Seq<u8>, ArtModel)>
    decreases s,
{
    if s.len() == 0 {
        Seq::empty()
    } else {
        entries_model(s.drop_last()).push((s.last().0@, art_model(s.last().1)))
    }
}

/// Pointwise form of the entry-list model.
pub proof fn lemma_entries_model_index(s: Seq<(Vec<u8>, Artifact)>)
    ensures
        entries_model(s).len() == s.len(),
        forall|i: int|
            0 <= i < s.len() ==> #[trigger] entries_model(s)[i] == (s[i].0@, art_model(s[i].1)),
    decreases s.len(),
{
    if s.len() == 0 {
    } else {
        lemma_entries_model_index(s.drop_last());
        assert forall|i: int|
            0 <= i < s.len() implies #[trigger] entries_model(s)[i] == (
            s[i].0@,
            art_model(s[i].1),
        ) by {
            if i < s.len() - 1 {
                assert(entries_model(s)[i] == entries_model(s.drop_last())[i]);
                assert(s.drop_last()[i] == s[i]);
            }
        }
    }
}

// ------------------------------------------------------------------
// Canonical serialization, as a specification.
// ------------------------------------------------------------------

/// A length-prefixed byte string: 8-byte little-endian length, then the bytes.
pub open spec fn ser_bytes(b: Seq<u8>) -> Seq<u8> {
    bytes_of_word(b.len() as u64) + b
}

/// Serialization of a list of byte strings, in order.
pub open spec fn ser_bytes_list(s: Seq<Vec<u8>>) -> Seq<u8>
    decreases s.len(),
{
    if s.len() == 0 {
        Seq::empty()
    } else {
        ser_bytes_list(s.drop_last()) + ser_bytes(s.last()@)
    }
}

/// Serialization of a list of recipe hashes, in order.
pub open spec fn ser_hash_list(s: Seq<RecipeHash>) -> Seq<u8>
    decreases s.len(),
{
    if s.len() == 0 {
        Seq::empty()
    } else {
        ser_hash_list(s.drop_last()) + bytes_of_digest(s.last().0)
    }
}

/// Serialization of named recipe-hash entries, in order.
pub open spec fn ser_name_hash_entries(s: Seq<(Vec<u8>, RecipeHash)>) -> Seq<u8>
    decreases s.len(),
{
    if s.len() == 0 {
        Seq::empty()
    } else {
        ser_name_hash_entries(s.drop_last()) + ser_bytes(s.last().0@) + bytes_of_digest(
            s.last().1.0,
        )
    }
}

/// Canonical serialization of an artifact.
pub open spec fn ser_artifact(a: Artifact) -> Seq<u8>
    decreases a,
{
    match a {
        Artifact::File { blob, executable, resources } => seq![0u8] + bytes_of_digest(blob.0)
            + seq![if executable { 1u8 } else { 0u8 }] + ser_directory(resources),
        Artifact::Dir(d) => seq![1u8] + ser_directory(d),
        Artifact::Symlink { target } => seq![2u8] + ser_bytes(target@),
    }
}

/// Canonical serialization of a directory: entry count, then each entry.
pub open spec fn ser_directory(d: Directory) -> Seq<u8>
    decreases d,
{
    bytes_of_word(d.entries@.len() as u64) + ser_dir_entries(d.entries@)
}

/// Serialization of directory entries, in order.
pub open spec fn ser_dir_entries(s: Seq<(Vec<u8>, Artifact)>) -> Seq<u8>
    decreases s,
{
    if s.len() == 0 {
        Seq::empty()
    } else {
        ser_dir_entries(s.drop_last()) + ser_bytes(s.last().0@) + ser_artifact(s.last().1)
    }
}

/// Canonical serialization of a recipe: a tag byte, then the fields in
/// declaration order.
pub open spec fn ser_recipe(r: Recipe) -> Seq<u8>
    decreases r,
{
    match r {
        Recipe::Complete(a) => seq![0u8] + ser_artifact(a),
        Recipe::Download { url } => seq![1u8] + ser_bytes(url@),
        Recipe::Unpack { archive } => seq![2u8] + bytes_of_digest(archive.0),
        Recipe::Process { command, args, dependencies } => seq![3u8] + ser_bytes(command@)
            + bytes_of_word(args@.len() as u64) + ser_bytes_list(args@) + bytes_of_word(
            dependencies@.len() as u64,
        ) + ser_hash_list(dependencies@),
        Recipe::CreateFile { blob, executable } => seq![4u8] + bytes_of_digest(blob.0)
            + seq![if executable { 1u8 } else { 0u8 }],
        Recipe::CreateDirectory { entries } => seq![5u8] + bytes_of_word(entries@.len() as u64)
            + ser_name_hash_entries(entries@),
        Recipe::CreateSymlink { target } => seq![6u8] + ser_bytes(target@),
        Recipe::Merge { directories } => seq![7u8] + bytes_of_word(directories@.len() as u64)
            + ser_hash_list(directories@),
    }
}

/// The structural hash of a recipe: BLAKE3 over its canonical serialization.
pub open spec fn hash_of_recipe(r: Recipe) -> RecipeHash {
    RecipeHash(blake3_digest(ser_recipe(r)))
}

/// The content hash of an artifact: the hash of the recipe that completes
/// to it, so a baked output can seed the same closure as its input.
pub open spec fn hash_of_artifact(a: Artifact) -> ArtifactHash {
    ArtifactHash(hash_of_recipe(Recipe::Complete(a)).0)
}

// ------------------------------------------------------------------
// Embedded references, as a specification.
// ------------------------------------------------------------------

/// The recipe hashes a recipe embeds directly.
pub open spec fn child_hashes(r: Recipe) -> Seq<RecipeHash> {
    match r {
        Recipe::Complete(_) => Seq::empty(),
        Recipe::Download { .. } => Seq::empty(),
        Recipe::Unpack { archive } => seq![archive],
        Recipe::Process { dependencies, .. } => dependencies@,
        Recipe::CreateFile { .. } => Seq::empty(),
        Recipe::CreateDirectory { entries } => entries@.map_values(
            |p: (Vec<u8>, RecipeHash)| p.1,
        ),
        Recipe::CreateSymlink { .. } => Seq::empty(),
        Recipe::Merge { directories } => directories@,
    }
}

/// The blob hashes embedded in an artifact, including those of nested
/// directories.
pub open spec fn artifact_blobs(a: Artifact) -> Seq<BlobHash>
    decreases a,
{
    match a {
        Artifact::File { blob, resources, .. } => seq![blob] + dir_blobs(resources),
        Artifact::Dir(d) => dir_blobs(d),
        Artifact::Symlink { .. } => Seq::empty(),
    }
}

/// The blob hashes embedded in a directory's entries.
pub open spec fn dir_blobs(d: Directory) -> Seq<BlobHash>
    decreases d,
{
    dir_entries_blobs(d.entries@)
}

/// The blob hashes embedded in directory entries, in order.
pub open spec fn dir_entries_blobs(s: Seq<(Vec<u8>, Artifact)>) -> Seq<BlobHash>
    decreases s,
{
    if s.len() == 0 {
        Seq::empty()
    } else {
        dir_entries_blobs(s.drop_last()) + artifact_blobs(s.last().1)
    }
}

/// The blob hashes a recipe embeds.
pub open spec fn recipe_blobs(r: Recipe) -> Seq<BlobHash> {
    match r {
        Recipe::Complete(a) => artifact_blobs(a),
        Recipe::CreateFile { blob, .. } => seq![blob],
        _ => Seq::empty(),
    }
}

// ------------------------------------------------------------------
// Serialization, executable.
// ------------------------------------------------------------------

/// Appends a copy of `b`.
pub fn extend_bytes(out: &mut Vec<u8>, b: &Vec<u8>)
    ensures
        final(out)@ == old(out)@ + b@,
{
    let n = b.len();
    let mut i: usize = 0;
    while i < n
        invariant
            i <= n,
            n == b@.len(),
            out@ =~= old(out)@ + b@.subrange(0, i as int),
        decreases n - i,
    {
        out.push(b[i]);
        proof {
            assert(out@ =~= old(out)@ + b@.subrange(0, i + 1));
        }
        i = i + 1;
    }
    proof {
        assert(out@ =~= old(out)@ + b@);
    }
}

/// Appends the length-prefixed form of `b`.
fn push_bytes_field(out: &mut Vec<u8>, b: &Vec<u8>)
    ensures
        final(out)@ == old(out)@ + ser_bytes(b@),
{
    push_word_bytes(out, b.len() as u64);
    extend_bytes(out, b);
}

/// Appends the canonical serialization of `a`.
pub fn serialize_artifact(a: &Artifact, out: &mut Vec<u8>)
    ensures
        final(out)@ == old(out)@ + ser_artifact(*a),
    decreases *a,
{
    match a {
        Artifact::File { blob, executable, resources } => {
            out.push(0u8);
            push_digest_bytes(out, &blob.0);
            out.push(if *executable {
                1u8
            } else {
                0u8
            });
            serialize_directory(resources, out);
            proof {
                assert(out@ =~= old(out)@ + ser_artifact(*a));
            }
        },
        Artifact::Dir(d) => {
            out.push(1u8);
            serialize_directory(d, out);
            proof {
                assert(out@ =~= old(out)@ + ser_artifact(*a));
            }
        },
        Artifact::Symlink { target } => {
            out.push(2u8);
            push_bytes_field(out, target);
            proof {
                assert(out@ =~= old(out)@ + ser_artifact(*a));
            }
        },
    }
}

/// Appends the canonical serialization of `d`.
pub fn serialize_directory(d: &Directory, out: &mut Vec<u8>)
    ensures
        final(out)@ == old(out)@ + ser_directory(*d),
    decreases *d,
{
    push_word_bytes(out, d.entries.len() as u64);
    let ghost base = out@;
    let n = d.entries.len();
    let mut i: usize = 0;
    while i < n
        invariant
            i <= n,
            n == d.entries@.len(),
            out@ == base + ser_dir_entries(d.entries@.subrange(0, i as int)),
        decreases n - i,
    {
        proof {
            assert(decreases_to!(*d => d.entries@[i as int].1));
        }
        push_bytes_field(out, &d.entries[i].0);
        serialize_artifact(&d.entries[i].1, out);
        proof {
            let pre = d.entries@.subrange(0, i as int);
            let post = d.entries@.subrange(0, i + 1);
            assert(post.drop_last() =~= pre);
            assert(post.last() == d.entries@[i as int]);
            assert(out@ =~= base + ser_dir_entries(post));
        }
        i = i + 1;
    }
    proof {
        assert(d.entries@.subrange(0, n as int) =~= d.entries@);
        assert(out@ =~= old(out)@ + ser_directory(*d));
    }
}

/// Appends the canonical serialization of `r`.
pub fn serialize_recipe(r: &Recipe, out: &mut Vec<u8>)
    ensures
        final(out)@ == old(out)@ + ser_recipe(*r),
    decreases *r,
{
    match r {
        Recipe::Complete(a) => {
            out.push(0u8);
            serialize_artifact(a, out);
            proof {
                assert(out@ =~= old(out)@ + ser_recipe(*r));
            }
        },
        Recipe::Download { url } => {
            out.push(1u8);
            push_bytes_field(out, url);
            proof {
                assert(out@ =~= old(out)@ + ser_recipe(*r));
            }
        },
        Recipe::Unpack { archive } => {
            out.push(2u8);
            push_digest_bytes(out, &archive.0);
            proof {
                assert(out@ =~= old(out)@ + ser_recipe(*r));
            }
        },
        Recipe::Process { command, args, dependencies } => {
            out.push(3u8);
            push_bytes_field(out, command);
            push_word_bytes(out, args.len() as u64);
            let ghost base = out@;
            let n = args.len();
            let mut i: usize = 0;
            while i < n
                invariant
                    i <= n,
                    n == args@.len(),
                    out@ == base + ser_bytes_list(args@.subrange(0, i as int)),
                decreases n - i,
            {
                push_bytes_field(out, &args[i]);
                proof {
                    let post = args@.subrange(0, i + 1);
                    assert(post.drop_last() =~= args@.subrange(0, i as int));
                    assert(post.last() == args@[i as int]);
                    assert(out@ =~= base + ser_bytes_list(post));
                }
                i = i + 1;
            }
            proof {
                assert(args@.subrange(0, n as int) =~= args@);
            }
            push_word_bytes(out, dependencies.len() as u64);
            push_hash_list(dependencies, out);
            proof {
                assert(out@ =~= old(out)@ + ser_recipe(*r));
            }
        },
        Recipe::CreateFile { blob, executable } => {
            out.push(4u8);
            push_digest_bytes(out, &blob.0);
            out.push(if *executable {
                1u8
            } else {
                0u8
            });
            proof {
                assert(out@ =~= old(out)@ + ser_recipe(*r));
            }
        },
        Recipe::CreateDirectory { entries } => {
            out.push(5u8);
            push_word_bytes(out, entries.len() as u64);
            let ghost base = out@;
            let n = entries.len();
            let mut i: usize = 0;
            while i < n
                invariant
                    i <= n,
                    n == entries@.len(),
                    out@ == base + ser_name_hash_entries(entries@.subrange(0, i as int)),
                decreases n - i,
            {
                push_bytes_field(out, &entries[i].0);
                push_digest_bytes(out, &entries[i].1.0);
                proof {
                    let post = entries@.subrange(0, i + 1);
                    assert(post.drop_last() =~= entries@.subrange(0, i as int));
                    assert(post.last() == entries@[i as int]);
                    assert(out@ =~= base + ser_name_hash_entries(post));
                }
                i = i + 1;
            }
            proof {
                assert(entries@.subrange(0, n as int) =~= entries@);
                assert(out@ =~= old(out)@ + ser_recipe(*r));
            }
        },
        Recipe::CreateSymlink { target } => {
            out.push(6u8);
            push_bytes_field(out, target);
            proof {
                assert(out@ =~= old(out)@ + ser_recipe(*r));
            }
        },
        Recipe::Merge { directories } => {
            out.push(7u8);
            push_word_bytes(out, directories.len() as u64);
            push_hash_list(directories, out);
            proof {
                assert(out@ =~= old(out)@ + ser_recipe(*r));
            }
        },
    }
}

/// Appends the serialization of a recipe-hash list.
fn push_hash_list(hashes: &Vec<RecipeHash>, out: &mut Vec<u8>)
    ensures
        final(out)@ == old(out)@ + ser_hash_list(hashes@),
{
    let ghost base = out@;
    let n = hashes.len();
    let mut i: usize = 0;
    while i < n
        invariant
            i <= n,
            n == hashes@.len(),
            out@ == base + ser_hash_list(hashes@.subrange(0, i as int)),
        decreases n - i,
    {
        push_digest_bytes(out, &hashes[i].0);
        proof {
            let post = hashes@.subrange(0, i + 1);
            assert(post.drop_last() =~= hashes@.subrange(0, i as int));
            assert(post.last() == hashes@[i as int]);
            assert(out@ =~= base + ser_hash_list(post));
        }
        i = i + 1;
    }
    proof {
        assert(hashes@.subrange(0, n as int) =~= hashes@);
    }
}

/// Computes the structural hash of a recipe.
pub fn recipe_hash(r: &Recipe) -> (h: RecipeHash)
    ensures
        h == hash_of_recipe(*r),
{
    let mut buf: Vec<u8> = Vec::new();
    serialize_recipe(r, &mut buf);
    proof {
        assert(buf@ =~= ser_recipe(*r));
    }
    RecipeHash(hash_bytes(buf.as_slice()))
}

/// Computes the content hash of an artifact.
pub fn artifact_hash(a: &Artifact) -> (h: ArtifactHash)
    ensures
        h == hash_of_artifact(*a),
{
    let mut buf: Vec<u8> = Vec::new();
    buf.push(0u8);
    serialize_artifact(a, &mut buf);
    proof {
        assert(buf@ =~= ser_recipe(Recipe::Complete(*a)));
    }
    ArtifactHash(hash_bytes(buf.as_slice()))
}

// ------------------------------------------------------------------
// Embedded references, executable.
// ------------------------------------------------------------------

/// Collects the recipe hashes a recipe embeds directly.
pub fn child_recipe_hashes(r: &Recipe) -> (v: Vec<RecipeHash>)
    ensures
        v@ == child_hashes(*r),
{
    match r {
        Recipe::Complete(_) => Vec::new(),
        Recipe::Download { .. } => Vec::new(),
        Recipe::Unpack { archive } => {
            let mut v: Vec<RecipeHash> = Vec::new();
            v.push(*archive);
            proof {
                assert(v@ =~= child_hashes(*r));
            }
            v
        },
        Recipe::Process { dependencies, .. } => {
            let v = copy_hashes(dependencies);
            v
        },
        Recipe::CreateFile { .. } => Vec::new(),
        Recipe::CreateDirectory { entries } => {
            let n = entries.len();
            let mut v: Vec<RecipeHash> = Vec::new();
            let mut i: usize = 0;
            while i < n
                invariant
                    i <= n,
                    n == entries@.len(),
                    v@ =~= entries@.subrange(0, i as int).map_values(
                        |p: (Vec<u8>, RecipeHash)| p.1,
                    ),
                decreases n - i,
            {
                v.push(entries[i].1);
                proof {
                    assert(v@ =~= entries@.subrange(0, i + 1).map_values(
                        |p: (Vec<u8>, RecipeHash)| p.1,
                    ));
                }
                i = i + 1;
            }
            proof {
                assert(entries@.subrange(0, n as int) =~= entries@);
                assert(v@ =~= child_hashes(*r));
            }
            v
        },
        Recipe::CreateSymlink { .. } => Vec::new(),
        Recipe::Merge { directories } => {
            let v = copy_hashes(directories);
            v
        },
    }
}

/// Copies a vector of recipe hashes.
fn copy_hashes(v: &Vec<RecipeHash>) -> (r: Vec<RecipeHash>)
    ensures
        r@ == v@,
{
    let n = v.len();
    let mut out: Vec<RecipeHash> = Vec::new();
    let mut i: usize = 0;
    while i < n
        invariant
            i <= n,
            n == v@.len(),
            out@ =~= v@.subrange(0, i as int),
        decreases n - i,
    {
        out.push(v[i]);
        proof {
            assert(out@ =~= v@.subrange(0, i + 1));
        }
        i = i + 1;
    }
    proof {
        assert(out@ =~= v@);
    }
    out
}

/// Appends the blob hashes embedded in `a`.
pub fn collect_artifact_blobs(a: &Artifact, out: &mut Vec<BlobHash>)
    ensures
        final(out)@ == old(out)@ + artifact_blobs(*a),
    decreases *a,
{
    match a {
        Artifact::File { blob, resources, .. } => {
            out.push(*blob);
            collect_dir_blobs(resources, out);
            proof {
                assert(out@ =~= old(out)@ + artifact_blobs(*a));
            }
        },
        Artifact::Dir(d) => {
            collect_dir_blobs(d, out);
            proof {
                assert(out@ =~= old(out)@ + artifact_blobs(*a));
            }
        },
        Artifact::Symlink { .. } => {
            proof {
                assert(out@ =~= old(out)@ + artifact_blobs(*a));
            }
        },
    }
}

/// Appends the blob hashes embedded in `d`.
pub fn collect_dir_blobs(d: &Directory, out: &mut Vec<BlobHash>)
    ensures
        final(out)@ == old(out)@ + dir_blobs(*d),
    decreases *d,
{
    let ghost base = out@;
    let n = d.entries.len();
    let mut i: usize = 0;
    while i < n
        invariant
            i <= n,
            n == d.entries@.len(),
            out@ == base + dir_entries_blobs(d.entries@.subrange(0, i as int)),
        decreases n - i,
    {
        proof {
            assert(decreases_to!(*d => d.entries@[i as int].1));
        }
        collect_artifact_blobs(&d.entries[i].1, out);
        proof {
            let post = d.entries@.subrange(0, i + 1);
            assert(post.drop_last() =~= d.entries@.subrange(0, i as int));
            assert(post.last() == d.entries@[i as int]);
            assert(out@ =~= base + dir_entries_blobs(post));
        }
        i = i + 1;
    }
    proof {
        assert(d.entries@.subrange(0, n as int) =~= d.entries@);
        assert(out@ =~= old(out)@ + dir_blobs(*d));
    }
}

/// Collects the blob hashes a recipe embeds.
pub fn recipe_blob_hashes(r: &Recipe) -> (v: Vec<BlobHash>)
    ensures
        v@ == recipe_blobs(*r),
{
    match r {
        Recipe::Complete(a) => {
            let mut v: Vec<BlobHash> = Vec::new();
            collect_artifact_blobs(a, &mut v);
            proof {
                assert(v@ =~= recipe_blobs(*r));
            }
            v
        },
        Recipe::CreateFile { blob, .. } => {
            let mut v: Vec<BlobHash> = Vec::new();
            v.push(*blob);
            proof {
                assert(v@ =~= recipe_blobs(*r));
            }
            v
        },
        _ => {
            let v: Vec<BlobHash> = Vec::new();
            proof {
                assert(v@ =~= recipe_blobs(*r));
            }
            v
        },
    }
}

// ------------------------------------------------------------------
// Copies that preserve the projections.
// ------------------------------------------------------------------

/// Copies a byte string.
pub fn copy_bytes(v: &Vec<u8>) -> (r: Vec<u8>)
    ensures
        r@ == v@,
{
    let n = v.len();
    let mut out: Vec<u8> = Vec::new();
    let mut i: usize = 0;
    while i < n
        invariant
            i <= n,
            n == v@.len(),
            out@ =~= v@.subrange(0, i as int),
        decreases n - i,
    {
        out.push(v[i]);
        proof {
            assert(out@ =~= v@.subrange(0, i + 1));
        }
        i = i + 1;
    }
    proof {
        assert(out@ =~= v@);
    }
    out
}

/// Copies an artifact; the copy serializes identically and embeds the same
/// blob hashes.
pub fn clone_artifact(a: &Artifact) -> (r: Artifact)
    ensures
        ser_artifact(r) == ser_artifact(*a),
        artifact_blobs(r) == artifact_blobs(*a),
        art_model(r) == art_model(*a),
    decreases *a,
{
    match a {
        Artifact::File { blob, executable, resources } => {
            let d = clone_directory(resources);
            Artifact::File { blob: *blob, executable: *executable, resources: d }
        },
        Artifact::Dir(d) => Artifact::Dir(clone_directory(d)),
        Artifact::Symlink { target } => Artifact::Symlink { target: copy_bytes(target) },
    }
}

/// Copies a directory; the copy serializes identically and embeds the same
/// blob hashes.
pub fn clone_directory(d: &Directory) -> (r: Directory)
    ensures
        ser_directory(r) == ser_directory(*d),
        dir_blobs(r) == dir_blobs(*d),
        dir_model(r) == dir_model(*d),
        r.entries@.len() == d.entries@.len(),
    decreases *d,
{
    let n = d.entries.len();
    let mut out: Vec<(Vec<u8>, Artifact)> = Vec::new();
    let mut i: usize = 0;
    while i < n
        invariant
            i <= n,
            n == d.entries@.len(),
            out@.len() == i,
            ser_dir_entries(out@) == ser_dir_entries(d.entries@.subrange(0, i as int)),
            dir_entries_blobs(out@) == dir_entries_blobs(d.entries@.subrange(0, i as int)),
            entries_model(out@) == entries_model(d.entries@.subrange(0, i as int)),
        decreases n - i,
    {
        proof {
            assert(decreases_to!(*d => d.entries@[i as int].1));
        }
        let name = copy_bytes(&d.entries[i].0);
        let value = clone_artifact(&d.entries[i].1);
        let ghost prev = out@;
        out.push((name, value));
        proof {
            let post = d.entries@.subrange(0, i + 1);
            assert(post.drop_last() =~= d.entries@.subrange(0, i as int));
            assert(post.last() == d.entries@[i as int]);
            assert(out@.drop_last() =~= prev);
            assert(out@.last() == (name, value));
            assert(ser_dir_entries(out@) =~= ser_dir_entries(post));
            assert(dir_entries_blobs(out@) =~= dir_entries_blobs(post));
            assert(entries_model(out@) =~= entries_model(post));
        }
        i = i + 1;
    }
    proof {
        assert(d.entries@.subrange(0, n as int) =~= d.entries@);
    }
    Directory { entries: out }
}

/// Copies a recipe; the copy serializes identically, so it has the same
/// hash, the same child recipe hashes, and the same embedded blob hashes.
pub fn clone_recipe(r: &Recipe) -> (c: Recipe)
    ensures
        ser_recipe(c) == ser_recipe(*r),
        hash_of_recipe(c) == hash_of_recipe(*r),
        child_hashes(c) == child_hashes(*r),
        recipe_blobs(c) == recipe_blobs(*r),
{
    match r {
        Recipe::Complete(a) => {
            let c = Recipe::Complete(clone_artifact(a));
            proof {
                assert(child_hashes(c) =~= child_hashes(*r));
            }
            c
        },
        Recipe::Download { url } => {
            let c = Recipe::Download { url: copy_bytes(url) };
            proof {
                assert(ser_recipe(c) =~= ser_recipe(*r));
                assert(child_hashes(c) =~= child_hashes(*r));
                assert(recipe_blobs(c) =~= recipe_blobs(*r));
            }
            c
        },
        Recipe::Unpack { archive } => Recipe::Unpack { archive: *archive },
        Recipe::Process { command, args, dependencies } => {
            let command2 = copy_bytes(command);
            let deps2 = copy_hashes(dependencies);
            let n = args.len();
            let mut args2: Vec<Vec<u8>> = Vec::new();
            let mut i: usize = 0;
            while i < n
                invariant
                    i <= n,
                    n == args@.len(),
                    args2@.len() == i,
                    ser_bytes_list(args2@) == ser_bytes_list(args@.subrange(0, i as int)),
                decreases n - i,
            {
                let ghost prev = args2@;
                args2.push(copy_bytes(&args[i]));
                proof {
                    let post = args@.subrange(0, i + 1);
                    assert(post.drop_last() =~= args@.subrange(0, i as int));
                    assert(post.last() == args@[i as int]);
                    assert(args2@.drop_last() =~= prev);
                    assert(ser_bytes_list(args2@) =~= ser_bytes_list(post));
                }
                i = i + 1;
            }
            proof {
                assert(args@.subrange(0, n as int) =~= args@);
            }
            let c = Recipe::Process { command: command2, args: args2, dependencies: deps2 };
            proof {
                assert(ser_recipe(c) =~= ser_recipe(*r));
                assert(child_hashes(c) =~= child_hashes(*r));
                assert(recipe_blobs(c) =~= recipe_blobs(*r));
            }
            c
        },
        Recipe::CreateFile { blob, executable } => Recipe::CreateFile {
            blob: *blob,
            executable: *executable,
        },
        Recipe::CreateDirectory { entries } => {
            let n = entries.len();
            let mut entries2: Vec<(Vec<u8>, RecipeHash)> = Vec::new();
            let mut i: usize = 0;
            while i < n
                invariant
                    i <= n,
                    n == entries@.len(),
                    entries2@.len() == i,
                    ser_name_hash_entries(entries2@) == ser_name_hash_entries(
                        entries@.subrange(0, i as int),
                    ),
                    forall|j: int| 0 <= j < i ==> (#[trigger] entries2@[j]).1 == entries@[j].1,
                decreases n - i,
            {
                let ghost prev = entries2@;
                entries2.push((copy_bytes(&entries[i].0), entries[i].1));
                proof {
                    let post = entries@.subrange(0, i + 1);
                    assert(post.drop_last() =~= entries@.subrange(0, i as int));
                    assert(post.last() == entries@[i as int]);
                    assert(entries2@.drop_last() =~= prev);
                    assert(ser_name_hash_entries(entries2@) =~= ser_name_hash_entries(post));
                }
                i = i + 1;
            }
            proof {
                assert(entries@.subrange(0, n as int) =~= entries@);
            }
            let c = Recipe::CreateDirectory { entries: entries2 };
            proof {
                assert(ser_recipe(c) =~= ser_recipe(*r));
                assert(child_hashes(c) =~= child_hashes(*r));
                assert(recipe_blobs(c) =~= recipe_blobs(*r));
            }
            c
        },
        Recipe::CreateSymlink { target } => {
            let c = Recipe::CreateSymlink { target: copy_bytes(target) };
            proof {
                assert(ser_recipe(c) =~= ser_recipe(*r));
                assert(child_hashes(c) =~= child_hashes(*r));
                assert(recipe_blobs(c) =~= recipe_blobs(*r));
            }
            c
        },
        Recipe::Merge { directories } => {
            let c = Recipe::Merge { directories: copy_hashes(directories) };
            proof {
                assert(ser_recipe(c) =~= ser_recipe(*r));
                assert(child_hashes(c) =~= child_hashes(*r));
                assert(recipe_blobs(c) =~= recipe_blobs(*r));
            }
            c
        },
    }
}

} // verus!
