//! Reference-graph closure: from seed recipe hashes to the closed set of
//! transitively referenced recipes and blobs.

use vstd::prelude::*;

use crate::digest::{blake3_digest, BlobHash, ProjectHash, RecipeHash};
use crate::keyed::{AssocMap, AssocSet};
use crate::recipe::{
    child_hashes, child_recipe_hashes, clone_recipe, copy_bytes, hash_of_recipe, recipe_blob_hashes,
    recipe_blobs, recipe_hash, ser_recipe, Recipe,
};

verus! {

/// An error surfaced by the synchronization engine.
#[derive(Clone, Copy, Debug)]
pub enum SyncError {
    /// A recipe referenced during closure is missing from the local store.
    MissingRecipe(RecipeHash),
    /// A referenced blob is missing from the local blob store.
    MissingBlob(BlobHash),
}

impl SyncError {
    /// A short description of the error kind.
    pub fn describe(&self) -> (r: &'static str)
        ensures
            true,
    {
        match self {
            SyncError::MissingRecipe(_) => "local recipe referenced during sync is missing",
            SyncError::MissingBlob(_) => "local blob referenced during sync is missing",
        }
    }
}

/// The local hash-addressed recipe store.
pub struct RecipeStore {
    pub recipes: AssocMap<RecipeHash, Recipe>,
}

impl RecipeStore {
    /// Every stored recipe sits under its own structural hash.
    pub open spec fn wf(self) -> bool {
        &&& self.recipes.wf()
        &&& forall|h: RecipeHash| #[trigger]
            self.recipes.view_map().dom().contains(h) ==> hash_of_recipe(
                self.recipes.view_map()[h],
            ) == h
    }

    pub fn new() -> (r: RecipeStore)
        ensures
            r.wf(),
            r.recipes.view_map() =~= Map::<RecipeHash, Recipe>::empty(),
    {
        RecipeStore { recipes: AssocMap::new() }
    }

    /// Stores a recipe under its structural hash and returns that hash.
    pub fn insert_recipe(&mut self, r: Recipe) -> (h: RecipeHash)
        requires
            old(self).wf(),
        ensures
            final(self).wf(),
            h == hash_of_recipe(r),
            final(self).recipes.view_map() =~= old(self).recipes.view_map().insert(h, r),
    {
        let h = recipe_hash(&r);
        self.recipes.insert(h, r);
        h
    }
}

/// The transitive references of a set of recipes: every reachable recipe,
/// keyed by hash, and every blob any of them embeds.
pub struct RecipeReferences {
    pub recipes: AssocMap<RecipeHash, Recipe>,
    pub blobs: AssocSet<BlobHash>,
}

impl RecipeReferences {
    pub open spec fn wf(self) -> bool {
        &&& self.recipes.wf()
        &&& self.blobs.wf()
    }

    /// The set of recipe hashes covered.
    pub open spec fn recipe_dom(self) -> Set<RecipeHash> {
        self.recipes.view_map().dom()
    }

    /// The set of blob hashes covered.
    pub open spec fn blob_set(self) -> Set<BlobHash> {
        self.blobs.view_set()
    }

    pub fn new() -> (r: RecipeReferences)
        ensures
            r.wf(),
            r.recipe_dom() =~= Set::<RecipeHash>::empty(),
            r.blob_set() =~= Set::<BlobHash>::empty(),
    {
        RecipeReferences { recipes: AssocMap::new(), blobs: AssocSet::new() }
    }
}

/// A project definition: the source layout and dependency pinning, in its
/// canonical serialized form.  Its hash is BLAKE3 over that form.
#[derive(Debug, PartialEq, Eq)]
pub struct Project {
    pub definition: Vec<u8>,
}

/// The hash of a project definition.
pub open spec fn hash_of_project(p: Project) -> ProjectHash {
    ProjectHash(blake3_digest(p.definition@))
}

/// Computes the hash of a project definition.
pub fn project_hash(p: &Project) -> (h: ProjectHash)
    ensures
        h == hash_of_project(*p),
{
    ProjectHash(crate::digest::hash_bytes(p.definition.as_slice()))
}

/// Copies a project; the copy has the same definition bytes, so the same
/// hash.
pub fn clone_project(p: &Project) -> (c: Project)
    ensures
        c.definition@ == p.definition@,
        hash_of_project(c) == hash_of_project(*p),
{
    Project { definition: copy_bytes(&p.definition) }
}

/// The references gathered while loading a project: the recipe closure,
/// blobs already loaded in memory, and the project definitions themselves.
pub struct ProjectReferences {
    pub recipes: RecipeReferences,
    pub loaded_blobs: AssocMap<BlobHash, Vec<u8>>,
    pub projects: AssocMap<ProjectHash, Project>,
}

impl ProjectReferences {
    /// Loaded blobs sit under the hash of their bytes; projects sit under
    /// the hash of their definition.
    pub open spec fn wf(self) -> bool {
        &&& self.recipes.wf()
        &&& self.loaded_blobs.wf()
        &&& self.projects.wf()
        &&& forall|h: BlobHash| #[trigger]
            self.loaded_blobs.view_map().dom().contains(h) ==> BlobHash(
                blake3_digest(self.loaded_blobs.view_map()[h]@),
            ) == h
        &&& forall|h: ProjectHash| #[trigger]
            self.projects.view_map().dom().contains(h) ==> hash_of_project(
                self.projects.view_map()[h],
            ) == h
    }

    pub fn new() -> (r: ProjectReferences)
        ensures
            r.wf(),
            r.recipes.recipe_dom() =~= Set::<RecipeHash>::empty(),
            r.recipes.blob_set() =~= Set::<BlobHash>::empty(),
            r.loaded_blobs.view_map() =~= Map::<BlobHash, Vec<u8>>::empty(),
            r.projects.view_map() =~= Map::<ProjectHash, Project>::empty(),
    {
        ProjectReferences {
            recipes: RecipeReferences::new(),
            loaded_blobs: AssocMap::new(),
            projects: AssocMap::new(),
        }
    }

    /// Records an in-memory blob under the hash of its bytes.
    pub fn insert_loaded_blob(&mut self, bytes: Vec<u8>) -> (h: BlobHash)
        requires
            old(self).wf(),
        ensures
            final(self).wf(),
            h == BlobHash(blake3_digest(bytes@)),
            final(self).loaded_blobs.view_map() =~= old(self).loaded_blobs.view_map().insert(
                h,
                bytes,
            ),
            final(self).recipes == old(self).recipes,
            final(self).projects == old(self).projects,
    {
        let h = BlobHash(crate::digest::hash_bytes(bytes.as_slice()));
        self.loaded_blobs.insert(h, bytes);
        h
    }

    /// Records a project under the hash of its definition.
    pub fn insert_project(&mut self, p: Project) -> (h: ProjectHash)
        requires
            old(self).wf(),
        ensures
            final(self).wf(),
            h == hash_of_project(p),
            final(self).projects.view_map() =~= old(self).projects.view_map().insert(h, p),
            final(self).recipes == old(self).recipes,
            final(self).loaded_blobs == old(self).loaded_blobs,
    {
        let h = project_hash(&p);
        self.projects.insert(h, p);
        h
    }
}

/// Every hash a recipe embeds lies in the given sets.
pub open spec fn recipe_refs_in(r: Recipe, recs: Set<RecipeHash>, blobs: Set<BlobHash>) -> bool {
    &&& forall|i: int|
        0 <= i < child_hashes(r).len() ==> recs.contains(#[trigger] child_hashes(r)[i])
    &&& forall|i: int|
        0 <= i < recipe_blobs(r).len() ==> blobs.contains(#[trigger] recipe_blobs(r)[i])
}

/// The references are closed: no recipe in the set dangles.
pub open spec fn refs_closed(refs: RecipeReferences) -> bool {
    forall|h: RecipeHash| #[trigger]
        refs.recipe_dom().contains(h) ==> recipe_refs_in(
            refs.recipes.view_map()[h],
            refs.recipe_dom(),
            refs.blob_set(),
        )
}

/// The items of a concatenation are the items of both halves.
proof fn lemma_concat_to_set<A>(a: Seq<A>, b: Seq<A>)
    ensures
        (a + b).to_set() =~= a.to_set().union(b.to_set()),
{
    assert forall|x: A| (a + b).to_set().contains(x) implies a.to_set().union(b.to_set()).contains(
        x,
    ) by {
        let i = choose|i: int| 0 <= i < (a + b).len() && (a + b)[i] == x;
        if i < a.len() {
            assert(a[i] == x);
        } else {
            assert(b[i - a.len()] == x);
        }
    }
    assert forall|x: A| a.to_set().union(b.to_set()).contains(x) implies (a + b).to_set().contains(
        x,
    ) by {
        if a.to_set().contains(x) {
            let i = choose|i: int| 0 <= i < a.len() && a[i] == x;
            assert((a + b)[i] == x);
        } else {
            let i = choose|i: int| 0 <= i < b.len() && b[i] == x;
            assert((a + b)[a.len() + i] == x);
        }
    }
}

/// Agreement of references with a store map: each covered recipe is the
/// stored one, up to its canonical serialization and its projections.
pub open spec fn refs_agrees(refs: RecipeReferences, smap: Map<RecipeHash, Recipe>) -> bool {
    forall|h: RecipeHash| #[trigger]
        refs.recipe_dom().contains(h) ==> {
            &&& smap.dom().contains(h)
            &&& ser_recipe(refs.recipes.view_map()[h]) == ser_recipe(smap[h])
            &&& child_hashes(refs.recipes.view_map()[h]) == child_hashes(smap[h])
            &&& recipe_blobs(refs.recipes.view_map()[h]) == recipe_blobs(smap[h])
        }
}

/// The references agree with the store: each covered recipe is the stored
/// one, up to its canonical serialization.
pub open spec fn refs_from_store(refs: RecipeReferences, store: RecipeStore) -> bool {
    refs_agrees(refs, store.recipes.view_map())
}

/// Every blob covered is embedded by some covered recipe.
pub open spec fn blobs_minimal(refs: RecipeReferences) -> bool {
    forall|b: BlobHash| #[trigger]
        refs.blob_set().contains(b) ==> exists|h: RecipeHash|
            refs.recipe_dom().contains(h) && recipe_blobs(refs.recipes.view_map()[h]).contains(b)
}

/// `refs` is the closure of `seeds` over the store: well-formed, closed,
/// agreeing with the store, blob-minimal, hash-consistent, covering the
/// seeds, and contained in every covering set.
pub open spec fn closure_of(store: RecipeStore, seeds: Seq<RecipeHash>, refs: RecipeReferences) -> bool {
    &&& refs.wf()
    &&& refs_closed(refs)
    &&& refs_agrees(refs, store.recipes.view_map())
    &&& blobs_minimal(refs)
    &&& forall|h: RecipeHash| #[trigger]
        refs.recipe_dom().contains(h) ==> hash_of_recipe(refs.recipes.view_map()[h]) == h
    &&& forall|i: int| 0 <= i < seeds.len() ==> refs.recipe_dom().contains(#[trigger] seeds[i])
    &&& forall|s: Set<RecipeHash>| #[trigger]
        covering(store.recipes.view_map(), seeds, s) ==> refs.recipe_dom().subset_of(s)
}

/// A set of hashes that is closed under the store's child references and
/// contains the seeds: any correct closure result must lie inside it.
pub open spec fn covering(
    store_map: Map<RecipeHash, Recipe>,
    seeds: Seq<RecipeHash>,
    s: Set<RecipeHash>,
) -> bool {
    &&& forall|h: RecipeHash| #[trigger]
        s.contains(h) ==> store_map.dom().contains(h) && (forall|i: int|
            0 <= i < child_hashes(store_map[h]).len() ==> s.contains(
                #[trigger] child_hashes(store_map[h])[i],
            ))
    &&& forall|i: int| 0 <= i < seeds.len() ==> s.contains(#[trigger] seeds[i])
}

/// Walks the reference graph from the seed hashes and returns the closed
/// references: every transitively embedded recipe hash appears as a key,
/// and every blob embedded by a covered recipe appears in the blob set.
/// The result is the least such set, so its contents do not depend on the
/// traversal order.  Fails exactly when a reachable recipe is missing from
/// the store, naming the offending hash.
pub fn recipe_references(store: &RecipeStore, seeds: &Vec<RecipeHash>) -> (res: Result<
    RecipeReferences,
    SyncError,
>)
    requires
        store.wf(),
    ensures
        match res {
            Ok(refs) => {
                &&& refs.wf()
                &&& refs_closed(refs)
                &&& refs_from_store(refs, *store)
                &&& blobs_minimal(refs)
                &&& forall|h: RecipeHash| #[trigger]
                    refs.recipe_dom().contains(h) ==> hash_of_recipe(refs.recipes.view_map()[h])
                        == h
                &&& forall|i: int|
                    0 <= i < seeds@.len() ==> refs.recipe_dom().contains(#[trigger] seeds@[i])
                &&& forall|s: Set<RecipeHash>| #[trigger]
                    covering(store.recipes.view_map(), seeds@, s) ==> refs.recipe_dom().subset_of(s)
                &&& closure_of(*store, seeds@, refs)
            },
            Err(e) => {
                &&& e matches SyncError::MissingRecipe(h)
                &&& {
                    let h = e->MissingRecipe_0;
                    &&& !store.recipes.view_map().dom().contains(h)
                    &&& forall|s: Set<RecipeHash>| #[trigger]
                        covering(store.recipes.view_map(), seeds@, s) ==> s.contains(h)
                }
            },
        },
{
    let ghost smap = store.recipes.view_map();
    let mut refs = RecipeReferences::new();
    let mut queue: Vec<RecipeHash> = Vec::new();
    let n = seeds.len();
    let mut i: usize = 0;
    while i < n
        invariant
            i <= n,
            n == seeds@.len(),
            queue@ =~= seeds@.subrange(0, i as int),
        decreases n - i,
    {
        queue.push(seeds[i]);
        proof {
            assert(queue@ =~= seeds@.subrange(0, i + 1));
        }
        i = i + 1;
    }
    proof {
        assert(queue@ =~= seeds@);
        store.recipes.lemma_view();
    }
    loop
        invariant
            store.wf(),
            smap == store.recipes.view_map(),
            refs.wf(),
            // processed entries dangle at most into the queue
            forall|h: RecipeHash| #[trigger]
                refs.recipe_dom().contains(h) ==> recipe_refs_in(
                    refs.recipes.view_map()[h],
                    refs.recipe_dom().union(queue@.to_set()),
                    refs.blob_set(),
                ),
            refs_from_store(refs, *store),
            blobs_minimal(refs),
            // seeds are already covered or still queued
            forall|i: int|
                0 <= i < seeds@.len() ==> refs.recipe_dom().union(queue@.to_set()).contains(
                    #[trigger] seeds@[i],
                ),
            // everything covered or queued lies inside every covering set
            forall|s: Set<RecipeHash>| #[trigger]
                covering(smap, seeds@, s) ==> refs.recipe_dom().subset_of(s)
                    && queue@.to_set().subset_of(s),
            refs.recipe_dom().subset_of(smap.dom()),
        ensures
            queue@.len() == 0,
        decreases smap.dom().len() - refs.recipe_dom().len(), queue@.len(),
    {
        proof {
            store.recipes.lemma_view();
            vstd::set_lib::lemma_len_subset(refs.recipe_dom(), smap.dom());
        }
        let ghost qprev = queue@;
        let next = queue.pop();
        match next {
            None => {
                break ;
            },
            Some(h) => {
                proof {
                    assert(queue@.push(h) =~= qprev);
                }
                if refs.recipes.contains_key(&h) {
                    proof {
                        assert forall|hh: RecipeHash| #[trigger]
                            refs.recipe_dom().contains(hh) implies recipe_refs_in(
                            refs.recipes.view_map()[hh],
                            refs.recipe_dom().union(queue@.to_set()),
                            refs.blob_set(),
                        ) by {
                            assert(recipe_refs_in(
                                refs.recipes.view_map()[hh],
                                refs.recipe_dom().union(queue@.push(h).to_set()),
                                refs.blob_set(),
                            ));
                            assert forall|x: RecipeHash|
                                refs.recipe_dom().union(queue@.push(h).to_set()).contains(
                                    x,
                                ) implies refs.recipe_dom().union(queue@.to_set()).contains(x) by {
                                queue@.lemma_push_to_set_commute(h);
                                if x == h {
                                    assert(refs.recipe_dom().contains(x));
                                }
                            }
                        }
                        assert forall|i: int| 0 <= i < seeds@.len() implies refs.recipe_dom().union(
                            queue@.to_set(),
                        ).contains(#[trigger] seeds@[i]) by {
                            queue@.lemma_push_to_set_commute(h);
                        }
                    }
                    continue ;
                }
                let found = store.recipes.get(&h);
                match found {
                    None => {
                        return Err(SyncError::MissingRecipe(h));
                    },
                    Some(r) => {
                        let children = child_recipe_hashes(r);
                        let blob_list = recipe_blob_hashes(r);
                        let c = clone_recipe(r);
                        let ghost refs_before = refs;
                        refs.recipes.insert(h, c);
                        let ghost blobs_mid = refs;
                        // record the embedded blobs
                        let bn = blob_list.len();
                        let mut bi: usize = 0;
                        while bi < bn
                            invariant
                                bi <= bn,
                                bn == blob_list@.len(),
                                refs.recipes == blobs_mid.recipes,
                                refs.blobs.wf(),
                                refs.blob_set() =~= blobs_mid.blob_set().union(
                                    blob_list@.subrange(0, bi as int).to_set(),
                                ),
                            decreases bn - bi,
                        {
                            refs.blobs.insert(blob_list[bi]);
                            proof {
                                blob_list@.subrange(0, bi as int).lemma_push_to_set_commute(
                                    blob_list@[bi as int],
                                );
                                assert(blob_list@.subrange(0, bi as int).push(blob_list@[bi as int])
                                    =~= blob_list@.subrange(0, bi + 1));
                            }
                            bi = bi + 1;
                        }
                        proof {
                            assert(blob_list@.subrange(0, bn as int) =~= blob_list@);
                        }
                        // queue the embedded recipe hashes
                        let ghost queue_before = queue@;
                        let cn = children.len();
                        let mut ci: usize = 0;
                        while ci < cn
                            invariant
                                ci <= cn,
                                cn == children@.len(),
                                queue@ =~= queue_before + children@.subrange(0, ci as int),
                            decreases cn - ci,
                        {
                            queue.push(children[ci]);
                            proof {
                                assert(queue@ =~= queue_before + children@.subrange(0, ci + 1));
                            }
                            ci = ci + 1;
                        }
                        proof {
                            assert(queue@ =~= queue_before + children@);
                            lemma_closure_step(
                                smap,
                                seeds@,
                                refs_before,
                                refs,
                                queue_before,
                                queue@,
                                h,
                                store.recipes.view_map()[h],
                                c,
                                children@,
                                blob_list@,
                            );
                            vstd::set_lib::lemma_len_subset(refs.recipe_dom(), smap.dom());
                        }
                    },
                }
            },
        }
    }
    proof {
        assert(queue@.to_set() =~= Set::<RecipeHash>::empty());
        assert forall|h: RecipeHash| #[trigger] refs.recipe_dom().contains(h) implies recipe_refs_in(
            refs.recipes.view_map()[h],
            refs.recipe_dom(),
            refs.blob_set(),
        ) by {
            assert(refs.recipe_dom().union(queue@.to_set()) =~= refs.recipe_dom());
        }
        assert forall|i: int| 0 <= i < seeds@.len() implies refs.recipe_dom().contains(
            #[trigger] seeds@[i],
        ) by {
            assert(refs.recipe_dom().union(queue@.to_set()) =~= refs.recipe_dom());
        }
        assert forall|h: RecipeHash| #[trigger] refs.recipe_dom().contains(h) implies hash_of_recipe(
            refs.recipes.view_map()[h],
        ) == h by {
            assert(ser_recipe(refs.recipes.view_map()[h]) == ser_recipe(
                store.recipes.view_map()[h],
            ));
        }
    }
    Ok(refs)
}

/// One closure step preserves the loop's bookkeeping: popping `h`, storing
/// a copy of the stored recipe, recording its blobs and queueing its
/// children keeps every invariant.
proof fn lemma_closure_step(
    smap: Map<RecipeHash, Recipe>,
    seeds: Seq<RecipeHash>,
    refs_before: RecipeReferences,
    refs: RecipeReferences,
    queue_before: Seq<RecipeHash>,
    queue_after: Seq<RecipeHash>,
    h: RecipeHash,
    stored: Recipe,
    c: Recipe,
    children: Seq<RecipeHash>,
    blob_list: Seq<BlobHash>,
)
    requires
        refs_before.wf(),
        refs.recipes.wf(),
        refs.blobs.wf(),
        !refs_before.recipe_dom().contains(h),
        smap.dom().contains(h),
        stored == smap[h],
        ser_recipe(c) == ser_recipe(stored),
        child_hashes(c) == child_hashes(stored),
        recipe_blobs(c) == recipe_blobs(stored),
        children == child_hashes(stored),
        blob_list == recipe_blobs(stored),
        refs.recipes.view_map() == refs_before.recipes.view_map().insert(h, c),
        refs.blob_set() == refs_before.blob_set().union(blob_list.to_set()),
        queue_after =~= queue_before + children,
        // invariants before the step, with h still queued
        forall|hh: RecipeHash| #[trigger]
            refs_before.recipe_dom().contains(hh) ==> recipe_refs_in(
                refs_before.recipes.view_map()[hh],
                refs_before.recipe_dom().union(queue_before.push(h).to_set()),
                refs_before.blob_set(),
            ),
        refs_agrees(refs_before, smap),
        blobs_minimal(refs_before),
        forall|i: int|
            0 <= i < seeds.len() ==> refs_before.recipe_dom().union(
                queue_before.push(h).to_set(),
            ).contains(#[trigger] seeds[i]),
        forall|s: Set<RecipeHash>| #[trigger]
            covering(smap, seeds, s) ==> refs_before.recipe_dom().subset_of(s)
                && queue_before.push(h).to_set().subset_of(s),
        refs_before.recipe_dom().subset_of(smap.dom()),
    ensures
        forall|hh: RecipeHash| #[trigger]
            refs.recipe_dom().contains(hh) ==> recipe_refs_in(
                refs.recipes.view_map()[hh],
                refs.recipe_dom().union(queue_after.to_set()),
                refs.blob_set(),
            ),
        refs_agrees(refs, smap),
        blobs_minimal(refs),
        forall|i: int|
            0 <= i < seeds.len() ==> refs.recipe_dom().union(queue_after.to_set()).contains(
                #[trigger] seeds[i],
            ),
        forall|s: Set<RecipeHash>| #[trigger]
            covering(smap, seeds, s) ==> refs.recipe_dom().subset_of(s)
                && queue_after.to_set().subset_of(s),
        refs.recipe_dom().subset_of(smap.dom()),
        refs.recipe_dom().len() == refs_before.recipe_dom().len() + 1,
{
    refs_before.recipes.lemma_view();
    queue_before.lemma_push_to_set_commute(h);
    lemma_concat_to_set(queue_before, children);
    assert(queue_after.to_set() =~= queue_before.to_set().union(children.to_set()));
    assert(refs.recipe_dom() =~= refs_before.recipe_dom().insert(h));
    // the new entry's children are all queued; its blobs are all recorded
    assert forall|hh: RecipeHash| #[trigger] refs.recipe_dom().contains(hh) implies recipe_refs_in(
        refs.recipes.view_map()[hh],
        refs.recipe_dom().union(queue_after.to_set()),
        refs.blob_set(),
    ) by {
        if hh == h {
            assert forall|i: int| 0 <= i < child_hashes(c).len() implies refs.recipe_dom().union(
                queue_after.to_set(),
            ).contains(#[trigger] child_hashes(c)[i]) by {
                assert(children.to_set().contains(children[i]));
            }
            assert forall|i: int| 0 <= i < recipe_blobs(c).len() implies refs.blob_set().contains(
                #[trigger] recipe_blobs(c)[i],
            ) by {
                assert(blob_list.to_set().contains(blob_list[i]));
            }
        } else {
            assert(refs_before.recipe_dom().contains(hh));
            assert(recipe_refs_in(
                refs_before.recipes.view_map()[hh],
                refs_before.recipe_dom().union(queue_before.push(h).to_set()),
                refs_before.blob_set(),
            ));
            assert(refs.recipes.view_map()[hh] == refs_before.recipes.view_map()[hh]);
            assert(refs_before.recipe_dom().union(queue_before.push(h).to_set()).subset_of(
                refs.recipe_dom().union(queue_after.to_set()),
            ));
            assert(refs_before.blob_set().subset_of(refs.blob_set()));
        }
    }
    // agreement with the store
    assert forall|hh: RecipeHash| #[trigger] refs.recipe_dom().contains(hh) implies {
        &&& smap.dom().contains(hh)
        &&& ser_recipe(refs.recipes.view_map()[hh]) == ser_recipe(smap[hh])
        &&& child_hashes(refs.recipes.view_map()[hh]) == child_hashes(smap[hh])
        &&& recipe_blobs(refs.recipes.view_map()[hh]) == recipe_blobs(smap[hh])
    } by {
        if hh != h {
            assert(refs_before.recipe_dom().contains(hh));
        }
    }
    // blob minimality
    assert forall|b: BlobHash| #[trigger] refs.blob_set().contains(b) implies exists|
        hh: RecipeHash,
    |
        refs.recipe_dom().contains(hh) && recipe_blobs(refs.recipes.view_map()[hh]).contains(
            b,
        ) by {
        if refs_before.blob_set().contains(b) {
            let hh = choose|hh: RecipeHash|
                refs_before.recipe_dom().contains(hh) && recipe_blobs(
                    refs_before.recipes.view_map()[hh],
                ).contains(b);
            assert(hh != h ==> refs.recipes.view_map()[hh] == refs_before.recipes.view_map()[hh]);
            if hh == h {
                assert(refs.recipe_dom().contains(h));
                assert(recipe_blobs(refs.recipes.view_map()[h]).contains(b));
            } else {
                assert(refs.recipe_dom().contains(hh) && recipe_blobs(
                    refs.recipes.view_map()[hh],
                ).contains(b));
            }
        } else {
            assert(blob_list.to_set().contains(b));
            assert(blob_list.contains(b));
            assert(refs.recipe_dom().contains(h) && recipe_blobs(
                refs.recipes.view_map()[h],
            ).contains(b));
        }
    }
    // minimality: every covering still contains everything we track
    assert forall|s: Set<RecipeHash>| #[trigger] covering(smap, seeds, s) implies refs.recipe_dom(
    ).subset_of(s) && queue_after.to_set().subset_of(s) by {
        assert(refs_before.recipe_dom().subset_of(s));
        assert(queue_before.push(h).to_set().subset_of(s));
        assert(queue_before.push(h).to_set().contains(h));
        assert(s.contains(h));
        assert forall|x: RecipeHash| children.to_set().contains(x) implies s.contains(x) by {
            let i = choose|i: int| 0 <= i < children.len() && children[i] == x;
            assert(s.contains(child_hashes(smap[h])[i]));
        }
    }
}

} // verus!
