//! The registry: a content-addressed store of blobs, recipes, bakes and
//! projects, seen through the engine's wire surface.
//!
//! The model keeps the registry's published behaviour: `known_*` report
//! which of the asked-for hashes are present, and the `create_*` and
//! `send_blob` operations are idempotent stores.  The registry invariant —
//! every stored recipe's references are present, and every bake edge
//! points at stored recipes — is preserved by each operation under its
//! stated preconditions.

use vstd::prelude::*;

use crate::digest::{blake3_digest, ArtifactHash, BlobHash, ProjectHash, RecipeHash};
use crate::keyed::{AssocMap, AssocSet, EqKey};
use crate::recipe::{child_hashes, hash_of_recipe, recipe_blobs, recipe_hash, ser_recipe, Recipe};
use crate::references::{hash_of_project, project_hash, recipe_refs_in, Project};

verus! {

/// A bake edge: evaluating the input recipe yields the output artifact.
#[derive(Clone, Copy, PartialEq, Eq, Structural, Hash, Debug)]
pub struct Bake {
    pub input: RecipeHash,
    pub output: ArtifactHash,
}

impl EqKey for Bake {
    fn eq_key(&self, other: &Self) -> (r: bool)
        ensures
            r == (self == other),
    {
        self.input.eq_key(&other.input) && self.output.eq_key(&other.output)
    }
}

/// The registry's stored state.
pub struct Registry {
    pub blobs: AssocMap<BlobHash, Vec<u8>>,
    pub recipes: AssocMap<RecipeHash, Recipe>,
    pub bakes: AssocSet<Bake>,
    pub projects: AssocMap<ProjectHash, Project>,
}

/// The registry invariant: no stored recipe dangles, and every bake edge
/// points at stored recipes (the baked output's complete form included).
pub open spec fn registry_closed(reg: Registry) -> bool {
    &&& forall|h: RecipeHash| #[trigger]
        reg.recipes.view_map().dom().contains(h) ==> recipe_refs_in(
            reg.recipes.view_map()[h],
            reg.recipes.view_map().dom(),
            reg.blobs.view_map().dom(),
        )
    &&& forall|b: Bake| #[trigger]
        reg.bakes.view_set().contains(b) ==> reg.recipes.view_map().dom().contains(b.input)
            && reg.recipes.view_map().dom().contains(RecipeHash(b.output.0))
}

/// The hashes of a batch of recipes.
pub open spec fn batch_hash_set(batch: Seq<Recipe>) -> Set<RecipeHash> {
    batch.map_values(|r: Recipe| hash_of_recipe(r)).to_set()
}

impl Registry {
    /// Stored blobs, recipes and projects all sit under their own hash.
    pub open spec fn wf(self) -> bool {
        &&& self.blobs.wf()
        &&& self.recipes.wf()
        &&& self.bakes.wf()
        &&& self.projects.wf()
        &&& forall|h: BlobHash| #[trigger]
            self.blobs.view_map().dom().contains(h) ==> BlobHash(
                blake3_digest(self.blobs.view_map()[h]@),
            ) == h
        &&& forall|h: RecipeHash| #[trigger]
            self.recipes.view_map().dom().contains(h) ==> hash_of_recipe(
                self.recipes.view_map()[h],
            ) == h
        &&& forall|h: ProjectHash| #[trigger]
            self.projects.view_map().dom().contains(h) ==> hash_of_project(
                self.projects.view_map()[h],
            ) == h
    }

    pub open spec fn blob_dom(self) -> Set<BlobHash> {
        self.blobs.view_map().dom()
    }

    pub open spec fn recipe_dom(self) -> Set<RecipeHash> {
        self.recipes.view_map().dom()
    }

    pub open spec fn bake_set(self) -> Set<Bake> {
        self.bakes.view_set()
    }

    pub open spec fn project_dom(self) -> Set<ProjectHash> {
        self.projects.view_map().dom()
    }

    pub fn new() -> (r: Registry)
        ensures
            r.wf(),
            registry_closed(r),
            r.blob_dom() =~= Set::<BlobHash>::empty(),
            r.recipe_dom() =~= Set::<RecipeHash>::empty(),
            r.bake_set() =~= Set::<Bake>::empty(),
            r.project_dom() =~= Set::<ProjectHash>::empty(),
    {
        Registry {
            blobs: AssocMap::new(),
            recipes: AssocMap::new(),
            bakes: AssocSet::new(),
            projects: AssocMap::new(),
        }
    }

    /// Reports which of the asked-for blob hashes the registry has.
    pub fn known_blobs(&self, hashes: &Vec<BlobHash>) -> (r: AssocSet<BlobHash>)
        requires
            self.wf(),
        ensures
            r.wf(),
            r.view_set() =~= hashes@.to_set().intersect(self.blob_dom()),
    {
        let mut out: AssocSet<BlobHash> = AssocSet::new();
        let n = hashes.len();
        let mut i: usize = 0;
        while i < n
            invariant
                i <= n,
                n == hashes@.len(),
                self.wf(),
                out.wf(),
                out.view_set() =~= hashes@.subrange(0, i as int).to_set().intersect(
                    self.blob_dom(),
                ),
            decreases n - i,
        {
            let h = hashes[i];
            if self.blobs.contains_key(&h) {
                out.insert(h);
            }
            proof {
                hashes@.subrange(0, i as int).lemma_push_to_set_commute(h);
                assert(hashes@.subrange(0, i as int).push(h) =~= hashes@.subrange(0, i + 1));
                assert(out.view_set() =~= hashes@.subrange(0, i + 1).to_set().intersect(
                    self.blob_dom(),
                ));
            }
            i = i + 1;
        }
        proof {
            assert(hashes@.subrange(0, n as int) =~= hashes@);
        }
        out
    }

    /// Reports which of the asked-for recipe hashes the registry has.
    pub fn known_recipes(&self, hashes: &Vec<RecipeHash>) -> (r: AssocSet<RecipeHash>)
        requires
            self.wf(),
        ensures
            r.wf(),
            r.view_set() =~= hashes@.to_set().intersect(self.recipe_dom()),
    {
        let mut out: AssocSet<RecipeHash> = AssocSet::new();
        let n = hashes.len();
        let mut i: usize = 0;
        while i < n
            invariant
                i <= n,
                n == hashes@.len(),
                self.wf(),
                out.wf(),
                out.view_set() =~= hashes@.subrange(0, i as int).to_set().intersect(
                    self.recipe_dom(),
                ),
            decreases n - i,
        {
            let h = hashes[i];
            if self.recipes.contains_key(&h) {
                out.insert(h);
            }
            proof {
                hashes@.subrange(0, i as int).lemma_push_to_set_commute(h);
                assert(hashes@.subrange(0, i as int).push(h) =~= hashes@.subrange(0, i + 1));
                assert(out.view_set() =~= hashes@.subrange(0, i + 1).to_set().intersect(
                    self.recipe_dom(),
                ));
            }
            i = i + 1;
        }
        proof {
            assert(hashes@.subrange(0, n as int) =~= hashes@);
        }
        out
    }

    /// Reports which of the asked-for bake edges the registry has.
    pub fn known_bakes(&self, pairs: &Vec<Bake>) -> (r: AssocSet<Bake>)
        requires
            self.wf(),
        ensures
            r.wf(),
            r.view_set() =~= pairs@.to_set().intersect(self.bake_set()),
    {
        let mut out: AssocSet<Bake> = AssocSet::new();
        let n = pairs.len();
        let mut i: usize = 0;
        while i < n
            invariant
                i <= n,
                n == pairs@.len(),
                self.wf(),
                out.wf(),
                out.view_set() =~= pairs@.subrange(0, i as int).to_set().intersect(
                    self.bake_set(),
                ),
            decreases n - i,
        {
            let b = pairs[i];
            if self.bakes.contains(&b) {
                out.insert(b);
            }
            proof {
                pairs@.subrange(0, i as int).lemma_push_to_set_commute(b);
                assert(pairs@.subrange(0, i as int).push(b) =~= pairs@.subrange(0, i + 1));
                assert(out.view_set() =~= pairs@.subrange(0, i + 1).to_set().intersect(
                    self.bake_set(),
                ));
            }
            i = i + 1;
        }
        proof {
            assert(pairs@.subrange(0, n as int) =~= pairs@);
        }
        out
    }

    /// Reports which of the asked-for project hashes the registry has.
    pub fn known_projects(&self, hashes: &Vec<ProjectHash>) -> (r: AssocSet<ProjectHash>)
        requires
            self.wf(),
        ensures
            r.wf(),
            r.view_set() =~= hashes@.to_set().intersect(self.project_dom()),
    {
        let mut out: AssocSet<ProjectHash> = AssocSet::new();
        let n = hashes.len();
        let mut i: usize = 0;
        while i < n
            invariant
                i <= n,
                n == hashes@.len(),
                self.wf(),
                out.wf(),
                out.view_set() =~= hashes@.subrange(0, i as int).to_set().intersect(
                    self.project_dom(),
                ),
            decreases n - i,
        {
            let h = hashes[i];
            if self.projects.contains_key(&h) {
                out.insert(h);
            }
            proof {
                hashes@.subrange(0, i as int).lemma_push_to_set_commute(h);
                assert(hashes@.subrange(0, i as int).push(h) =~= hashes@.subrange(0, i + 1));
                assert(out.view_set() =~= hashes@.subrange(0, i + 1).to_set().intersect(
                    self.project_dom(),
                ));
            }
            i = i + 1;
        }
        proof {
            assert(hashes@.subrange(0, n as int) =~= hashes@);
        }
        out
    }

    /// Stores bytes under the hash of their content.  Idempotent: storing
    /// again under the same hash leaves the same content-addressed entry.
    pub fn send_blob(&mut self, h: BlobHash, bytes: Vec<u8>)
        requires
            old(self).wf(),
            h == BlobHash(blake3_digest(bytes@)),
        ensures
            final(self).wf(),
            final(self).blob_dom() =~= old(self).blob_dom().insert(h),
            final(self).blobs.view_map()[h]@ == bytes@,
            forall|h2: BlobHash|
                old(self).blob_dom().contains(h2) && h2 != h
                    ==> final(self).blobs.view_map()[h2] == old(self).blobs.view_map()[h2],
            final(self).recipes == old(self).recipes,
            final(self).bakes == old(self).bakes,
            final(self).projects == old(self).projects,
            registry_closed(*old(self)) ==> registry_closed(*final(self)),
    {
        self.blobs.insert(h, bytes);
        proof {
            if registry_closed(*old(self)) {
                assert forall|hh: RecipeHash| #[trigger]
                    self.recipes.view_map().dom().contains(hh) implies recipe_refs_in(
                    self.recipes.view_map()[hh],
                    self.recipe_dom(),
                    self.blob_dom(),
                ) by {
                    assert(recipe_refs_in(
                        self.recipes.view_map()[hh],
                        old(self).recipe_dom(),
                        old(self).blob_dom(),
                    ));
                    assert(old(self).blob_dom().subset_of(self.blob_dom()));
                }
            }
        }
    }

    /// Stores a batch of recipes, each under its structural hash; entries
    /// already present are left as they are.  The batch must not dangle:
    /// each child hash resolves inside the registry or the batch itself,
    /// and each referenced blob is already stored.
    pub fn create_recipes(&mut self, batch: Vec<Recipe>)
        requires
            old(self).wf(),
            forall|i: int|
                0 <= i < batch@.len() ==> (forall|j: int|
                    0 <= j < child_hashes(#[trigger] batch@[i]).len() ==> old(
                        self,
                    ).recipe_dom().union(batch_hash_set(batch@)).contains(
                        #[trigger] child_hashes(batch@[i])[j],
                    )),
            forall|i: int|
                0 <= i < batch@.len() ==> (forall|j: int|
                    0 <= j < recipe_blobs(#[trigger] batch@[i]).len() ==> old(
                        self,
                    ).blob_dom().contains(#[trigger] recipe_blobs(batch@[i])[j])),
        ensures
            final(self).wf(),
            final(self).recipe_dom() =~= old(self).recipe_dom().union(batch_hash_set(batch@)),
            forall|h: RecipeHash|
                old(self).recipe_dom().contains(h) ==> final(self).recipes.view_map()[h] == old(
                    self,
                ).recipes.view_map()[h],
            forall|h: RecipeHash|
                batch_hash_set(batch@).contains(h) && !old(self).recipe_dom().contains(h)
                    ==> exists|i: int|
                    {
                        let stored = final(self).recipes.view_map()[h];
                        &&& 0 <= i < batch@.len()
                        &&& hash_of_recipe(#[trigger] batch@[i]) == h
                        &&& ser_recipe(stored) == ser_recipe(batch@[i])
                        &&& child_hashes(stored) == child_hashes(batch@[i])
                        &&& recipe_blobs(stored) == recipe_blobs(batch@[i])
                    },
            final(self).blobs == old(self).blobs,
            final(self).bakes == old(self).bakes,
            final(self).projects == old(self).projects,
            registry_closed(*old(self)) ==> registry_closed(*final(self)),
    {
        let ghost reg0 = *self;
        let n = batch.len();
        let mut i: usize = 0;
        while i < n
            invariant
                i <= n,
                n == batch@.len(),
                self.wf(),
                self.recipe_dom() =~= reg0.recipe_dom().union(
                    batch_hash_set(batch@.subrange(0, i as int)),
                ),
                forall|h: RecipeHash|
                    reg0.recipe_dom().contains(h) ==> self.recipes.view_map()[h]
                        == reg0.recipes.view_map()[h],
                forall|h: RecipeHash|
                    batch_hash_set(batch@.subrange(0, i as int)).contains(h)
                        && !reg0.recipe_dom().contains(h) ==> exists|j: int|
                        {
                            let stored = self.recipes.view_map()[h];
                            &&& 0 <= j < i
                            &&& hash_of_recipe(#[trigger] batch@[j]) == h
                            &&& ser_recipe(stored) == ser_recipe(batch@[j])
                            &&& child_hashes(stored) == child_hashes(batch@[j])
                            &&& recipe_blobs(stored) == recipe_blobs(batch@[j])
                        },
                self.blobs == reg0.blobs,
                self.bakes == reg0.bakes,
                self.projects == reg0.projects,
                reg0 == *old(self),
            decreases n - i,
        {
            let h = recipe_hash(&batch[i]);
            let ghost prefix = batch@.subrange(0, i as int);
            if !self.recipes.contains_key(&h) {
                let r = crate::recipe::clone_recipe(&batch[i]);
                self.recipes.insert(h, r);
            }
            proof {
                let mapped = batch@.map_values(|r: Recipe| hash_of_recipe(r));
                assert(prefix.map_values(|r: Recipe| hash_of_recipe(r)).push(h)
                    =~= batch@.subrange(0, i + 1).map_values(|r: Recipe| hash_of_recipe(r)));
                prefix.map_values(|r: Recipe| hash_of_recipe(r)).lemma_push_to_set_commute(h);
                assert(self.recipe_dom() =~= reg0.recipe_dom().union(
                    batch_hash_set(batch@.subrange(0, i + 1)),
                ));
            }
            i = i + 1;
        }
        proof {
            assert(batch@.subrange(0, n as int) =~= batch@);
            if registry_closed(reg0) {
                assert forall|hh: RecipeHash| #[trigger]
                    self.recipes.view_map().dom().contains(hh) implies recipe_refs_in(
                    self.recipes.view_map()[hh],
                    self.recipe_dom(),
                    self.blob_dom(),
                ) by {
                    if reg0.recipe_dom().contains(hh) {
                        assert(recipe_refs_in(
                            self.recipes.view_map()[hh],
                            reg0.recipe_dom(),
                            reg0.blob_dom(),
                        ));
                        assert(reg0.recipe_dom().subset_of(self.recipe_dom()));
                    } else {
                        assert(batch_hash_set(batch@).contains(hh));
                        let stored = self.recipes.view_map()[hh];
                        let i = choose|i: int|
                            {
                                &&& 0 <= i < batch@.len()
                                &&& hash_of_recipe(#[trigger] batch@[i]) == hh
                                &&& ser_recipe(stored) == ser_recipe(batch@[i])
                                &&& child_hashes(stored) == child_hashes(batch@[i])
                                &&& recipe_blobs(stored) == recipe_blobs(batch@[i])
                            };
                        assert forall|j: int|
                            0 <= j < child_hashes(stored).len() implies self.recipe_dom().contains(
                            #[trigger] child_hashes(stored)[j],
                        ) by {
                            assert(child_hashes(batch@[i])[j] == child_hashes(stored)[j]);
                        }
                        assert forall|j: int|
                            0 <= j < recipe_blobs(stored).len() implies self.blob_dom().contains(
                            #[trigger] recipe_blobs(stored)[j],
                        ) by {
                            assert(recipe_blobs(batch@[i])[j] == recipe_blobs(stored)[j]);
                        }
                    }
                }
                assert forall|b: Bake| #[trigger] self.bakes.view_set().contains(b) implies self
                    .recipes.view_map().dom().contains(b.input) && self.recipes.view_map(
                ).dom().contains(RecipeHash(b.output.0)) by {
                    assert(reg0.recipe_dom().subset_of(self.recipe_dom()));
                }
            }
        }
    }

    /// Stores one bake edge.  Both end points must already be stored, so
    /// the registry never exposes a bake that dangles.
    pub fn create_bake(&mut self, input: RecipeHash, output: ArtifactHash)
        requires
            old(self).wf(),
            old(self).recipe_dom().contains(input),
            old(self).recipe_dom().contains(RecipeHash(output.0)),
        ensures
            final(self).wf(),
            final(self).bake_set() =~= old(self).bake_set().insert(Bake { input, output }),
            final(self).blobs == old(self).blobs,
            final(self).recipes == old(self).recipes,
            final(self).projects == old(self).projects,
            registry_closed(*old(self)) ==> registry_closed(*final(self)),
    {
        self.bakes.insert(Bake { input, output });
    }

    /// Stores a batch of projects, each under the hash of its definition;
    /// entries already present are left as they are.
    pub fn create_projects(&mut self, batch: Vec<Project>)
        requires
            old(self).wf(),
        ensures
            final(self).wf(),
            final(self).project_dom() =~= old(self).project_dom().union(
                batch@.map_values(|p: Project| hash_of_project(p)).to_set(),
            ),
            forall|h: ProjectHash|
                old(self).project_dom().contains(h) ==> final(self).projects.view_map()[h] == old(
                    self,
                ).projects.view_map()[h],
            forall|h: ProjectHash|
                batch@.map_values(|p: Project| hash_of_project(p)).to_set().contains(h) && !old(
                    self,
                ).project_dom().contains(h) ==> exists|i: int|
                    {
                        let stored = final(self).projects.view_map()[h];
                        &&& 0 <= i < batch@.len()
                        &&& hash_of_project(#[trigger] batch@[i]) == h
                        &&& stored.definition@ == batch@[i].definition@
                    },
            final(self).blobs == old(self).blobs,
            final(self).recipes == old(self).recipes,
            final(self).bakes == old(self).bakes,
            registry_closed(*old(self)) ==> registry_closed(*final(self)),
    {
        let ghost reg0 = *self;
        let n = batch.len();
        let mut i: usize = 0;
        while i < n
            invariant
                i <= n,
                n == batch@.len(),
                self.wf(),
                self.project_dom() =~= reg0.project_dom().union(
                    batch@.subrange(0, i as int).map_values(
                        |p: Project| hash_of_project(p),
                    ).to_set(),
                ),
                forall|h: ProjectHash|
                    reg0.project_dom().contains(h) ==> self.projects.view_map()[h]
                        == reg0.projects.view_map()[h],
                forall|h: ProjectHash|
                    batch@.subrange(0, i as int).map_values(
                        |p: Project| hash_of_project(p),
                    ).to_set().contains(h) && !reg0.project_dom().contains(h) ==> exists|j: int|
                        {
                            let stored = self.projects.view_map()[h];
                            &&& 0 <= j < i
                            &&& hash_of_project(#[trigger] batch@[j]) == h
                            &&& stored.definition@ == batch@[j].definition@
                        },
                self.blobs == reg0.blobs,
                self.recipes == reg0.recipes,
                self.bakes == reg0.bakes,
                reg0 == *old(self),
            decreases n - i,
        {
            let h = project_hash(&batch[i]);
            let ghost prefix = batch@.subrange(0, i as int);
            if !self.projects.contains_key(&h) {
                let p = crate::references::clone_project(&batch[i]);
                self.projects.insert(h, p);
            }
            proof {
                assert(prefix.map_values(|p: Project| hash_of_project(p)).push(h)
                    =~= batch@.subrange(0, i + 1).map_values(|p: Project| hash_of_project(p)));
                prefix.map_values(|p: Project| hash_of_project(p)).lemma_push_to_set_commute(h);
                assert(self.project_dom() =~= reg0.project_dom().union(
                    batch@.subrange(0, i + 1).map_values(
                        |p: Project| hash_of_project(p),
                    ).to_set(),
                ));
            }
            i = i + 1;
        }
        proof {
            assert(batch@.subrange(0, n as int) =~= batch@);
        }
    }
}

} // verus!
