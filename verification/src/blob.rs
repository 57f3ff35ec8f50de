//! The content-addressed blob store and its save permits.
//!
//! Bytes are stored under the BLAKE3 hash of their content and are
//! immutable once written.  Writers must hold a save permit, which bounds
//! how many of them run at once.

use vstd::prelude::*;

use crate::codec::hex_of_bytes;
use crate::digest::{blake3_digest, bytes_of_digest, hash_bytes, push_digest_bytes, BlobHash};
use crate::keyed::AssocMap;

verus! {

/// The path of a blob below the store's root: `blobs/`, then the blob
/// hash in lowercase hex.  A pure computation; it does not prove the blob
/// exists.
pub open spec fn blob_path_of(h: BlobHash) -> Seq<u8> {
    seq![98u8, 108u8, 111u8, 98u8, 115u8, 47u8] + hex_of_bytes(bytes_of_digest(h.0))
}

/// Computes the store-relative path of a blob.
pub fn blob_path(h: &BlobHash) -> (r: Vec<u8>)
    ensures
        r@ == blob_path_of(*h),
{
    let mut raw: Vec<u8> = Vec::new();
    push_digest_bytes(&mut raw, &h.0);
    let hex = crate::codec::hex_encode(raw.as_slice());
    let mut out: Vec<u8> = Vec::new();
    out.push(98u8);
    out.push(108u8);
    out.push(111u8);
    out.push(98u8);
    out.push(115u8);
    out.push(47u8);
    crate::recipe::extend_bytes(&mut out, &hex);
    proof {
        assert(raw@ =~= bytes_of_digest(h.0));
        assert(out@ =~= blob_path_of(*h));
    }
    out
}

/// One save in flight.
pub struct SavePermit {
    held: bool,
}

/// The process-wide gate that bounds concurrent blob writers.
pub struct SavePermitGate {
    capacity: usize,
    outstanding: usize,
}

impl SavePermitGate {
    /// The number of permits currently held.
    pub closed spec fn spec_outstanding(self) -> nat {
        self.outstanding as nat
    }

    /// The most permits that may be held at once.
    pub closed spec fn spec_capacity(self) -> nat {
        self.capacity as nat
    }

    /// Permits never exceed the capacity.
    pub open spec fn wf(self) -> bool {
        self.spec_outstanding() <= self.spec_capacity()
    }

    pub fn new(capacity: usize) -> (r: SavePermitGate)
        ensures
            r.wf(),
            r.spec_capacity() == capacity,
            r.spec_outstanding() == 0,
    {
        SavePermitGate { capacity, outstanding: 0 }
    }

    /// Grants a permit when one is free; returns nothing when all are out.
    pub fn try_acquire(&mut self) -> (r: Option<SavePermit>)
        requires
            old(self).wf(),
        ensures
            final(self).wf(),
            final(self).spec_capacity() == old(self).spec_capacity(),
            match r {
                Some(_) => old(self).spec_outstanding() < old(self).spec_capacity()
                    && final(self).spec_outstanding() == old(self).spec_outstanding() + 1,
                None => old(self).spec_outstanding() == old(self).spec_capacity()
                    && final(self).spec_outstanding() == old(self).spec_outstanding(),
            },
    {
        if self.outstanding < self.capacity {
            self.outstanding = self.outstanding + 1;
            Some(SavePermit { held: true })
        } else {
            None
        }
    }

    /// Returns a permit; every save releases its permit on all exit paths.
    pub fn release(&mut self, permit: SavePermit)
        requires
            old(self).wf(),
            old(self).spec_outstanding() > 0,
        ensures
            final(self).wf(),
            final(self).spec_capacity() == old(self).spec_capacity(),
            final(self).spec_outstanding() == old(self).spec_outstanding() - 1,
    {
        let SavePermit { held: _ } = permit;
        self.outstanding = self.outstanding - 1;
    }
}

/// The content-addressed blob store: bytes keyed by the BLAKE3 hash of
/// their content.
pub struct BlobStore {
    pub blobs: AssocMap<BlobHash, Vec<u8>>,
}

impl BlobStore {
    /// Every stored byte string sits under the hash of its content.
    pub open spec fn wf(self) -> bool {
        &&& self.blobs.wf()
        &&& forall|h: BlobHash| #[trigger]
            self.blobs.view_map().dom().contains(h) ==> BlobHash(
                blake3_digest(self.blobs.view_map()[h]@),
            ) == h
    }

    /// The set of stored blob hashes.
    pub open spec fn dom(self) -> Set<BlobHash> {
        self.blobs.view_map().dom()
    }

    pub fn new() -> (r: BlobStore)
        ensures
            r.wf(),
            r.dom() =~= Set::<BlobHash>::empty(),
    {
        BlobStore { blobs: AssocMap::new() }
    }

    /// Stores `bytes` under the hash of their content and returns that
    /// hash.  A successful save leaves the bytes present under their hash;
    /// the caller must hold a save permit.
    pub fn save_blob(&mut self, _permit: &SavePermit, bytes: Vec<u8>) -> (h: BlobHash)
        requires
            old(self).wf(),
        ensures
            final(self).wf(),
            h == BlobHash(blake3_digest(bytes@)),
            final(self).blobs.view_map() =~= old(self).blobs.view_map().insert(h, bytes),
            final(self).dom() =~= old(self).dom().insert(h),
    {
        let h = BlobHash(hash_bytes(bytes.as_slice()));
        self.blobs.insert(h, bytes);
        h
    }

    /// Reads the bytes stored under `h`, when present.
    pub fn read(&self, h: &BlobHash) -> (r: Option<&Vec<u8>>)
        requires
            self.wf(),
        ensures
            match r {
                Some(bytes) => self.dom().contains(*h) && *bytes == self.blobs.view_map()[*h]
                    && BlobHash(blake3_digest(bytes@)) == *h,
                None => !self.dom().contains(*h),
            },
    {
        self.blobs.get(h)
    }

    pub fn contains(&self, h: &BlobHash) -> (r: bool)
        requires
            self.wf(),
        ensures
            r == self.dom().contains(*h),
    {
        self.blobs.contains_key(h)
    }
}

/// Saving bytes and reading them back under their hash returns the same
/// bytes: the store is content-addressed.
pub proof fn lemma_save_then_read(store: BlobStore, before: Map<BlobHash, Vec<u8>>, bytes: Vec<u8>)
    requires
        store.blobs.view_map() == before.insert(BlobHash(blake3_digest(bytes@)), bytes),
    ensures
        store.blobs.view_map().dom().contains(BlobHash(blake3_digest(bytes@))),
        store.blobs.view_map()[BlobHash(blake3_digest(bytes@))]@ == bytes@,
{
}

} // verus!
