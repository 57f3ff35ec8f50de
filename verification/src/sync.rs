//! The synchronization engine: reconciling local recipes, blobs, bakes and
//! projects with the registry.
//!
//! Each phase first asks the registry what it already has, then uploads
//! only the rest.  Blobs are reconciled before recipes, and recipes before
//! bakes, so the registry never exposes a dangling reference: the registry
//! invariant `registry_closed` is preserved by every run, successful or
//! not.

use vstd::prelude::*;

use crate::blob::BlobStore;
use crate::digest::{BlobHash, ProjectHash, RecipeHash};
use crate::keyed::AssocSet;
use crate::recipe::{
    artifact_hash, child_hashes, clone_recipe, copy_bytes, hash_of_artifact, hash_of_recipe,
    recipe_blobs, recipe_hash, ser_recipe, Artifact, Recipe,
};
use crate::references::{
    blobs_minimal, closure_of, covering, hash_of_project, recipe_references, recipe_refs_in,
    refs_agrees, refs_closed, Project, ProjectReferences, RecipeReferences, RecipeStore, SyncError,
};
use crate::registry::{batch_hash_set, registry_closed, Bake, Registry};

verus! {

/// Counts returned by one recipe-reference reconciliation.
pub struct SyncRecipeReferencesResult {
    pub num_new_blobs: usize,
    pub num_new_recipes: usize,
}

/// Counts returned by one bake reconciliation.
pub struct SyncBakesResults {
    pub num_new_bakes: usize,
    pub num_new_recipes: usize,
    pub num_new_blobs: usize,
}

/// Adding one fresh item to a prefix grows the novel count exactly when
/// the item is outside the excluded set.
proof fn lemma_count_step<A>(prefix: Seq<A>, x: A, excluded: Set<A>)
    requires
        !prefix.contains(x),
        excluded.finite(),
    ensures
        !excluded.contains(x) ==> prefix.push(x).to_set().difference(excluded).len()
            == prefix.to_set().difference(excluded).len() + 1,
        excluded.contains(x) ==> prefix.push(x).to_set().difference(excluded)
            =~= prefix.to_set().difference(excluded),
{
    prefix.lemma_push_to_set_commute(x);
    let diff = prefix.to_set().difference(excluded);
    assert(prefix.to_set().finite() && prefix.to_set().len() <= prefix.len()) by {
        prefix.lemma_cardinality_of_set();
    }
    if !excluded.contains(x) {
        assert(prefix.push(x).to_set().difference(excluded) =~= diff.insert(x));
        assert(!diff.contains(x));
    } else {
        assert(prefix.push(x).to_set().difference(excluded) =~= diff);
    }
}

/// What a successful recipe-reference reconciliation did: the registry
/// gained exactly the referenced blobs (bytes from the blob store) and the
/// referenced recipes (values from the references), everything it already
/// had is untouched, the counts are the numbers of genuinely new blobs and
/// recipes, and the registry invariant is preserved.
pub open spec fn sync_refs_post(
    blob_store: BlobStore,
    reg0: Registry,
    reg1: Registry,
    refs: RecipeReferences,
    res: SyncRecipeReferencesResult,
) -> bool {
    &&& reg1.wf()
    &&& reg1.blob_dom() =~= reg0.blob_dom().union(refs.blob_set())
    &&& forall|h: BlobHash| #[trigger]
        reg0.blob_dom().contains(h) ==> reg1.blobs.view_map()[h] == reg0.blobs.view_map()[h]
    &&& forall|h: BlobHash| #[trigger]
        refs.blob_set().contains(h) && !reg0.blob_dom().contains(h)
            ==> reg1.blobs.view_map()[h]@ == blob_store.blobs.view_map()[h]@
    &&& res.num_new_blobs == refs.blob_set().difference(reg0.blob_dom()).len()
    &&& reg1.recipe_dom() =~= reg0.recipe_dom().union(refs.recipe_dom())
    &&& forall|h: RecipeHash| #[trigger]
        reg0.recipe_dom().contains(h) ==> reg1.recipes.view_map()[h] == reg0.recipes.view_map()[h]
    &&& forall|h: RecipeHash| #[trigger]
        refs.recipe_dom().contains(h) && !reg0.recipe_dom().contains(h) ==> {
            &&& ser_recipe(reg1.recipes.view_map()[h]) == ser_recipe(refs.recipes.view_map()[h])
            &&& child_hashes(reg1.recipes.view_map()[h]) == child_hashes(
                refs.recipes.view_map()[h],
            )
            &&& recipe_blobs(reg1.recipes.view_map()[h]) == recipe_blobs(
                refs.recipes.view_map()[h],
            )
        }
    &&& res.num_new_recipes == refs.recipe_dom().difference(reg0.recipe_dom()).len()
    &&& reg1.bakes == reg0.bakes
    &&& reg1.projects == reg0.projects
    &&& (registry_closed(reg0) ==> registry_closed(reg1))
}

/// Reconciles closed recipe references with the registry.
///
/// Two phases, in this order: first every referenced blob the registry
/// lacks is read from the blob store and sent, then every referenced
/// recipe the registry lacks is posted in one batch.  Uploading blobs
/// first means the registry never holds a recipe whose blobs are absent.
/// Fails exactly when a novel referenced blob is missing from the blob
/// store, naming that blob; the registry keeps its invariant even then.
pub fn sync_recipe_references(
    blob_store: &BlobStore,
    registry: &mut Registry,
    references: &RecipeReferences,
) -> (res: Result<SyncRecipeReferencesResult, SyncError>)
    requires
        blob_store.wf(),
        old(registry).wf(),
        references.wf(),
        refs_closed(*references),
        forall|h: RecipeHash| #[trigger]
            references.recipe_dom().contains(h) ==> hash_of_recipe(
                references.recipes.view_map()[h],
            ) == h,
    ensures
        match res {
            Ok(r) => sync_refs_post(
                *blob_store,
                *old(registry),
                *final(registry),
                *references,
                r,
            ),
            Err(e) => {
                &&& e matches SyncError::MissingBlob(_)
                &&& {
                    let b = e->MissingBlob_0;
                    &&& references.blob_set().contains(b)
                    &&& !blob_store.dom().contains(b)
                    &&& !old(registry).blob_dom().contains(b)
                }
                &&& final(registry).wf()
                &&& final(registry).recipes == old(registry).recipes
                &&& final(registry).bakes == old(registry).bakes
                &&& final(registry).projects == old(registry).projects
                &&& old(registry).blob_dom().subset_of(final(registry).blob_dom())
                &&& final(registry).blob_dom().subset_of(
                    old(registry).blob_dom().union(references.blob_set()),
                )
                &&& forall|h: BlobHash| #[trigger]
                    old(registry).blob_dom().contains(h) ==> final(registry).blobs.view_map()[h]
                        == old(registry).blobs.view_map()[h]
                &&& (registry_closed(*old(registry)) ==> registry_closed(*final(registry)))
            },
        },
        (forall|b: BlobHash| #[trigger]
            references.blob_set().contains(b) ==> blob_store.dom().contains(b) || old(
                registry,
            ).blob_dom().contains(b)) ==> res is Ok,
{
    let ghost reg0 = *registry;
    proof {
        references.blobs.lemma_view();
        references.recipes.lemma_view();
        reg0.blobs.lemma_view();
        reg0.recipes.lemma_view();
    }

    // Blob phase: send every referenced blob the registry lacks.
    let all_blobs = references.blobs.items();
    let known_blobs = registry.known_blobs(all_blobs);
    let n = all_blobs.len();
    let mut num_new_blobs: usize = 0;
    let mut i: usize = 0;
    proof {
        assert(all_blobs@.subrange(0, 0).to_set() =~= Set::<BlobHash>::empty());
        assert(registry.blob_dom() =~= reg0.blob_dom().union(
            all_blobs@.subrange(0, 0).to_set(),
        ));
        assert(all_blobs@.subrange(0, 0).to_set().difference(reg0.blob_dom())
            =~= Set::<BlobHash>::empty());
    }
    while i < n
        invariant
            i <= n,
            n == all_blobs@.len(),
            all_blobs@ == references.blobs.items_seq(),
            all_blobs@.no_duplicates(),
            all_blobs@.to_set() == references.blob_set(),
            blob_store.wf(),
            references.wf(),
            known_blobs.wf(),
            known_blobs.view_set() =~= all_blobs@.to_set().intersect(reg0.blob_dom()),
            registry.wf(),
            registry.blob_dom() =~= reg0.blob_dom().union(
                all_blobs@.subrange(0, i as int).to_set(),
            ),
            forall|h: BlobHash| #[trigger]
                reg0.blob_dom().contains(h) ==> registry.blobs.view_map()[h]
                    == reg0.blobs.view_map()[h],
            forall|h: BlobHash| #[trigger]
                all_blobs@.subrange(0, i as int).to_set().contains(h) && !reg0.blob_dom().contains(
                    h,
                ) ==> registry.blobs.view_map()[h]@ == blob_store.blobs.view_map()[h]@,
            num_new_blobs as int == all_blobs@.subrange(0, i as int).to_set().difference(
                reg0.blob_dom(),
            ).len(),
            num_new_blobs <= i,
            registry.recipes == reg0.recipes,
            registry.bakes == reg0.bakes,
            registry.projects == reg0.projects,
            registry_closed(reg0) ==> registry_closed(*registry),
            reg0.blob_dom().finite(),
            reg0 == *old(registry),
        decreases n - i,
    {
        let h = all_blobs[i];
        let ghost prefix = all_blobs@.subrange(0, i as int);
        proof {
            assert(prefix.push(h) =~= all_blobs@.subrange(0, i + 1));
            assert(!prefix.contains(h)) by {
                assert(forall|j: int| 0 <= j < i ==> prefix[j] == all_blobs@[j]);
            }
            lemma_count_step(prefix, h, reg0.blob_dom());
        }
        if !known_blobs.contains(&h) {
            proof {
                assert(all_blobs@.to_set().contains(h));
                assert(!reg0.blob_dom().contains(h));
            }
            let found = blob_store.read(&h);
            match found {
                None => {
                    proof {
                        assert(references.blob_set().contains(h));
                        assert(registry.blob_dom().subset_of(
                            reg0.blob_dom().union(references.blob_set()),
                        )) by {
                            assert forall|x: BlobHash| prefix.to_set().contains(x) implies
                                references.blob_set().contains(x) by {
                                assert(all_blobs@.to_set().contains(x));
                            }
                        }
                    }
                    return Err(SyncError::MissingBlob(h));
                },
                Some(bytes) => {
                    let copied = copy_bytes(bytes);
                    let ghost regprev = *registry;
                    registry.send_blob(h, copied);
                    num_new_blobs = num_new_blobs + 1;
                    proof {
                        prefix.lemma_push_to_set_commute(h);
                        assert(registry.blob_dom() =~= reg0.blob_dom().union(
                            all_blobs@.subrange(0, i + 1).to_set(),
                        ));
                        assert forall|h2: BlobHash|
                            all_blobs@.subrange(0, i + 1).to_set().contains(h2)
                                && !reg0.blob_dom().contains(h2) implies registry.blobs.view_map(
                        )[h2]@ == blob_store.blobs.view_map()[h2]@ by {
                            if h2 != h {
                                assert(prefix.to_set().contains(h2));
                                assert(regprev.blob_dom().contains(h2));
                                assert(registry.blobs.view_map()[h2]
                                    == regprev.blobs.view_map()[h2]);
                            }
                        }
                        assert forall|h2: BlobHash| #[trigger]
                            reg0.blob_dom().contains(h2) implies registry.blobs.view_map()[h2]
                            == reg0.blobs.view_map()[h2] by {
                            assert(h2 != h);
                            assert(regprev.blob_dom().contains(h2));
                        }
                    }
                },
            }
        } else {
            proof {
                assert(reg0.blob_dom().contains(h));
                prefix.lemma_push_to_set_commute(h);
                assert(registry.blob_dom() =~= reg0.blob_dom().union(
                    all_blobs@.subrange(0, i + 1).to_set(),
                ));
                assert forall|h2: BlobHash|
                    all_blobs@.subrange(0, i + 1).to_set().contains(h2)
                        && !reg0.blob_dom().contains(h2) implies registry.blobs.view_map()[h2]@
                    == blob_store.blobs.view_map()[h2]@ by {
                    assert(prefix.to_set().contains(h2));
                }
            }
        }
        i = i + 1;
    }
    proof {
        assert(all_blobs@.subrange(0, n as int) =~= all_blobs@);
    }

    // Recipe phase: post every referenced recipe the registry lacks, in
    // one batch.
    let entries = references.recipes.entries();
    let en = entries.len();
    let mut keys: Vec<RecipeHash> = Vec::new();
    let mut j: usize = 0;
    while j < en
        invariant
            j <= en,
            en == entries@.len(),
            entries@ == references.recipes.pairs_seq(),
            keys@.len() == j,
            forall|k: int| 0 <= k < j ==> keys@[k] == entries@[k].0,
        decreases en - j,
    {
        keys.push(entries[j].0);
        j = j + 1;
    }
    proof {
        assert(keys@ =~= crate::keyed::keys_of(references.recipes.pairs_seq()));
        references.recipes.lemma_view();
        assert(keys@.to_set() =~= references.recipe_dom());
        assert(keys@.no_duplicates()) by {
            assert(keys@ =~= crate::keyed::keys_of(references.recipes.pairs_seq()));
        }
    }
    let known_recipes = registry.known_recipes(&keys);
    let ghost reg_mid = *registry;
    let mut batch: Vec<Recipe> = Vec::new();
    let mut k: usize = 0;
    proof {
        assert(keys@.subrange(0, 0).to_set().difference(reg0.recipe_dom())
            =~= Set::<RecipeHash>::empty());
    }
    while k < en
        invariant
            k <= en,
            en == entries@.len(),
            entries@ == references.recipes.pairs_seq(),
            references.wf(),
            keys@.len() == en,
            forall|t: int| 0 <= t < en ==> keys@[t] == entries@[t].0,
            keys@.no_duplicates(),
            keys@.to_set() == references.recipe_dom(),
            known_recipes.wf(),
            known_recipes.view_set() =~= keys@.to_set().intersect(reg0.recipe_dom()),
            reg_mid.recipes == reg0.recipes,
            forall|h: RecipeHash| #[trigger]
                references.recipe_dom().contains(h) ==> hash_of_recipe(
                    references.recipes.view_map()[h],
                ) == h,
            forall|t: int|
                0 <= t < references.recipes.pairs_seq().len()
                    ==> references.recipe_dom().contains(
                    (#[trigger] references.recipes.pairs_seq()[t]).0,
                ) && references.recipes.view_map()[references.recipes.pairs_seq()[t].0]
                    == references.recipes.pairs_seq()[t].1,
            batch@.len() == keys@.subrange(0, k as int).to_set().difference(
                reg0.recipe_dom(),
            ).len(),
            forall|t: int|
                0 <= t < batch@.len() ==> {
                    let h = hash_of_recipe(#[trigger] batch@[t]);
                    &&& references.recipe_dom().contains(h)
                    &&& !reg0.recipe_dom().contains(h)
                    &&& ser_recipe(batch@[t]) == ser_recipe(references.recipes.view_map()[h])
                    &&& child_hashes(batch@[t]) == child_hashes(references.recipes.view_map()[h])
                    &&& recipe_blobs(batch@[t]) == recipe_blobs(references.recipes.view_map()[h])
                },
            forall|h: RecipeHash|
                keys@.subrange(0, k as int).to_set().contains(h) && !reg0.recipe_dom().contains(h)
                    ==> batch_hash_set(batch@).contains(h),
            reg0.recipe_dom().finite(),
        decreases en - k,
    {
        let h = entries[k].0;
        let ghost kprefix = keys@.subrange(0, k as int);
        proof {
            assert(kprefix.push(h) =~= keys@.subrange(0, k + 1));
            assert(keys@[k as int] == h);
            assert(!kprefix.contains(h)) by {
                assert forall|t: int| 0 <= t < k implies kprefix[t] != h by {
                    assert(kprefix[t] == keys@[t]);
                    assert(keys@[t] != keys@[k as int]);
                }
            }
            lemma_count_step(kprefix, h, reg0.recipe_dom());
        }
        if !known_recipes.contains(&h) {
            proof {
                assert(keys@.to_set().contains(h)) by {
                    assert(keys@[k as int] == h);
                }
                assert(!reg0.recipe_dom().contains(h));
                references.recipes.lemma_view();
                crate::keyed::lemma_map_of_index(references.recipes.pairs_seq(), k as int);
            }
            let c = clone_recipe(&entries[k].1);
            let ghost batch_prev = batch@;
            batch.push(c);
            proof {
                assert(batch@.map_values(|r: Recipe| hash_of_recipe(r)) =~= batch_prev.map_values(
                    |r: Recipe| hash_of_recipe(r),
                ).push(hash_of_recipe(c)));
                batch_prev.map_values(|r: Recipe| hash_of_recipe(r)).lemma_push_to_set_commute(
                    hash_of_recipe(c),
                );
                assert(hash_of_recipe(c) == h);
                assert forall|hh: RecipeHash|
                    kprefix.push(h).to_set().contains(hh) && !reg0.recipe_dom().contains(
                        hh,
                    ) implies batch_hash_set(batch@).contains(hh) by {
                    kprefix.lemma_push_to_set_commute(h);
                    if hh == h {
                        assert(batch_hash_set(batch@).contains(h));
                    } else {
                        assert(kprefix.to_set().contains(hh));
                        assert(batch_hash_set(batch_prev).contains(hh));
                        assert(batch_hash_set(batch@) =~= batch_hash_set(batch_prev).insert(
                            hash_of_recipe(c),
                        ));
                    }
                }
            }
        } else {
            proof {
                assert(reg0.recipe_dom().contains(h));
                assert forall|hh: RecipeHash|
                    kprefix.push(h).to_set().contains(hh) && !reg0.recipe_dom().contains(
                        hh,
                    ) implies batch_hash_set(batch@).contains(hh) by {
                    kprefix.lemma_push_to_set_commute(h);
                    assert(kprefix.to_set().contains(hh));
                }
            }
        }
        k = k + 1;
    }
    proof {
        assert(keys@.subrange(0, en as int) =~= keys@);
    }
    let num_new_recipes = batch.len();
    proof {
        // the batch meets the registry's no-dangling precondition
        assert forall|t: int| 0 <= t < batch@.len() implies (forall|u: int|
            0 <= u < child_hashes(#[trigger] batch@[t]).len() ==> registry.recipe_dom().union(
                batch_hash_set(batch@),
            ).contains(#[trigger] child_hashes(batch@[t])[u])) by {
            let h = hash_of_recipe(batch@[t]);
            let stored = references.recipes.view_map()[h];
            assert(recipe_refs_in(stored, references.recipe_dom(), references.blob_set()));
            assert forall|u: int| 0 <= u < child_hashes(batch@[t]).len() implies registry
                .recipe_dom().union(batch_hash_set(batch@)).contains(
                #[trigger] child_hashes(batch@[t])[u],
            ) by {
                let c = child_hashes(batch@[t])[u];
                assert(child_hashes(stored)[u] == c);
                assert(references.recipe_dom().contains(c));
                if reg0.recipe_dom().contains(c) {
                    assert(registry.recipe_dom().contains(c));
                } else {
                    assert(keys@.to_set().contains(c));
                    assert(batch_hash_set(batch@).contains(c));
                }
            }
        }
        assert forall|t: int| 0 <= t < batch@.len() implies (forall|u: int|
            0 <= u < recipe_blobs(#[trigger] batch@[t]).len() ==> registry.blob_dom().contains(
                #[trigger] recipe_blobs(batch@[t])[u],
            )) by {
            let h = hash_of_recipe(batch@[t]);
            let stored = references.recipes.view_map()[h];
            assert(recipe_refs_in(stored, references.recipe_dom(), references.blob_set()));
            assert forall|u: int| 0 <= u < recipe_blobs(batch@[t]).len() implies registry
                .blob_dom().contains(#[trigger] recipe_blobs(batch@[t])[u]) by {
                let b = recipe_blobs(batch@[t])[u];
                assert(recipe_blobs(stored)[u] == b);
                assert(references.blob_set().contains(b));
            }
        }
    }
    registry.create_recipes(batch);
    proof {
        assert(registry.recipe_dom() =~= reg0.recipe_dom().union(references.recipe_dom())) by {
            assert forall|h: RecipeHash|
                references.recipe_dom().contains(h) && !reg0.recipe_dom().contains(
                    h,
                ) implies batch_hash_set(batch@).contains(h) by {
                assert(keys@.to_set().contains(h));
            }
            assert forall|h: RecipeHash| batch_hash_set(batch@).contains(h) implies references
                .recipe_dom().contains(h) by {
                let mapped = batch@.map_values(|r: Recipe| hash_of_recipe(r));
                let t = choose|t: int| 0 <= t < mapped.len() && mapped[t] == h;
                assert(hash_of_recipe(batch@[t]) == h);
            }
        }
        assert(references.recipe_dom().difference(reg0.recipe_dom()).len()
            == num_new_recipes as int) by {
            assert(keys@.to_set().difference(reg0.recipe_dom()) =~= references.recipe_dom(
            ).difference(reg0.recipe_dom()));
        }
        assert forall|h: RecipeHash| #[trigger]
            references.recipe_dom().contains(h) && !reg0.recipe_dom().contains(h) implies {
            &&& ser_recipe(registry.recipes.view_map()[h]) == ser_recipe(
                references.recipes.view_map()[h],
            )
            &&& child_hashes(registry.recipes.view_map()[h]) == child_hashes(
                references.recipes.view_map()[h],
            )
            &&& recipe_blobs(registry.recipes.view_map()[h]) == recipe_blobs(
                references.recipes.view_map()[h],
            )
        } by {
            assert(batch_hash_set(batch@).contains(h)) by {
                assert(keys@.to_set().contains(h));
            }
            let t = choose|t: int|
                {
                    let stored = registry.recipes.view_map()[h];
                    &&& 0 <= t < batch@.len()
                    &&& hash_of_recipe(#[trigger] batch@[t]) == h
                    &&& ser_recipe(stored) == ser_recipe(batch@[t])
                    &&& child_hashes(stored) == child_hashes(batch@[t])
                    &&& recipe_blobs(stored) == recipe_blobs(batch@[t])
                };
            assert(ser_recipe(batch@[t]) == ser_recipe(references.recipes.view_map()[h]));
        }
    }
    Ok(SyncRecipeReferencesResult { num_new_blobs, num_new_recipes })
}

/// The ordering guarantee of reconciliation: because every referenced
/// blob is sent before any recipe is posted, and every recipe is posted
/// before any bake edge, a registry that starts with no dangling
/// references ends with none — whether the run succeeds or fails.
pub proof fn lemma_sync_preserves_registry_invariant(
    blob_store: BlobStore,
    reg0: Registry,
    reg1: Registry,
    refs: RecipeReferences,
    res: SyncRecipeReferencesResult,
)
    requires
        sync_refs_post(blob_store, reg0, reg1, refs, res),
        registry_closed(reg0),
    ensures
        registry_closed(reg1),
{
}

/// Reconciles project references with the registry.
///
/// Three phases: the project-embedded recipe closure is reconciled first
/// (blobs, then recipes), then blobs already loaded in memory are sent
/// directly — no disk round-trip — and finally the project definitions the
/// registry lacks are posted in one batch.  Fails exactly when a novel
/// blob of the recipe closure is missing from the blob store.
pub fn sync_project_references(
    blob_store: &BlobStore,
    registry: &mut Registry,
    references: &ProjectReferences,
) -> (res: Result<(), SyncError>)
    requires
        blob_store.wf(),
        old(registry).wf(),
        references.wf(),
        refs_closed(references.recipes),
        forall|h: RecipeHash| #[trigger]
            references.recipes.recipe_dom().contains(h) ==> hash_of_recipe(
                references.recipes.recipes.view_map()[h],
            ) == h,
    ensures
        final(registry).wf(),
        final(registry).bakes == old(registry).bakes,
        forall|h: BlobHash| #[trigger]
            old(registry).blob_dom().contains(h) ==> final(registry).blobs.view_map()[h] == old(
                registry,
            ).blobs.view_map()[h],
        registry_closed(*old(registry)) ==> registry_closed(*final(registry)),
        match res {
            Ok(_) => {
                &&& final(registry).recipe_dom() =~= old(registry).recipe_dom().union(
                    references.recipes.recipe_dom(),
                )
                &&& forall|h: RecipeHash| #[trigger]
                    old(registry).recipe_dom().contains(h) ==> final(registry).recipes.view_map(
                    )[h] == old(registry).recipes.view_map()[h]
                &&& final(registry).blob_dom() =~= old(registry).blob_dom().union(
                    references.recipes.blob_set(),
                ).union(references.loaded_blobs.view_map().dom())
                &&& forall|h: BlobHash| #[trigger]
                    references.loaded_blobs.view_map().dom().contains(h) && !old(
                        registry,
                    ).blob_dom().contains(h) && !references.recipes.blob_set().contains(h)
                        ==> final(registry).blobs.view_map()[h]@
                        == references.loaded_blobs.view_map()[h]@
                &&& final(registry).project_dom() =~= old(registry).project_dom().union(
                    references.projects.view_map().dom(),
                )
                &&& forall|h: ProjectHash| #[trigger]
                    old(registry).project_dom().contains(h) ==> final(registry).projects.view_map(
                    )[h] == old(registry).projects.view_map()[h]
                &&& forall|h: ProjectHash| #[trigger]
                    references.projects.view_map().dom().contains(h) && !old(
                        registry,
                    ).project_dom().contains(h) ==> final(registry).projects.view_map(
                    )[h].definition@ == references.projects.view_map()[h].definition@
            },
            Err(e) => {
                &&& e matches SyncError::MissingBlob(_)
                &&& {
                    let b = e->MissingBlob_0;
                    &&& references.recipes.blob_set().contains(b)
                    &&& !blob_store.dom().contains(b)
                    &&& !old(registry).blob_dom().contains(b)
                }
                &&& final(registry).recipes == old(registry).recipes
                &&& final(registry).projects == old(registry).projects
            },
        },
        (forall|b: BlobHash| #[trigger]
            references.recipes.blob_set().contains(b) ==> blob_store.dom().contains(b) || old(
                registry,
            ).blob_dom().contains(b)) ==> res is Ok,
{
    let ghost reg0 = *registry;

    // Recipe closure first: blobs, then recipes.
    match sync_recipe_references(blob_store, registry, &references.recipes) {
        Ok(_) => {},
        Err(e) => {
            return Err(e);
        },
    }
    let ghost reg_mid = *registry;

    // Loaded-blob phase: send novel in-memory blobs directly.
    proof {
        references.loaded_blobs.lemma_view();
    }
    let lentries = references.loaded_blobs.entries();
    let ln = lentries.len();
    let mut lkeys: Vec<BlobHash> = Vec::new();
    let mut j: usize = 0;
    while j < ln
        invariant
            j <= ln,
            ln == lentries@.len(),
            lentries@ == references.loaded_blobs.pairs_seq(),
            lkeys@.len() == j,
            forall|t: int| 0 <= t < j ==> lkeys@[t] == lentries@[t].0,
        decreases ln - j,
    {
        lkeys.push(lentries[j].0);
        j = j + 1;
    }
    proof {
        assert(lkeys@ =~= crate::keyed::keys_of(references.loaded_blobs.pairs_seq()));
        assert(lkeys@.to_set() =~= references.loaded_blobs.view_map().dom());
        assert(lkeys@.no_duplicates());
    }
    let known_loaded = registry.known_blobs(&lkeys);
    let mut i: usize = 0;
    proof {
        assert(registry.blob_dom() =~= reg_mid.blob_dom().union(
            lkeys@.subrange(0, 0).to_set(),
        ));
    }
    while i < ln
        invariant
            i <= ln,
            ln == lentries@.len(),
            lentries@ == references.loaded_blobs.pairs_seq(),
            references.wf(),
            lkeys@.len() == ln,
            forall|t: int| 0 <= t < ln ==> lkeys@[t] == lentries@[t].0,
            lkeys@.no_duplicates(),
            lkeys@.to_set() == references.loaded_blobs.view_map().dom(),
            known_loaded.wf(),
            known_loaded.view_set() =~= lkeys@.to_set().intersect(reg_mid.blob_dom()),
            registry.wf(),
            registry.blob_dom() =~= reg_mid.blob_dom().union(lkeys@.subrange(0, i as int).to_set()),
            forall|h: BlobHash| #[trigger]
                reg_mid.blob_dom().contains(h) ==> registry.blobs.view_map()[h]
                    == reg_mid.blobs.view_map()[h],
            forall|h: BlobHash| #[trigger]
                lkeys@.subrange(0, i as int).to_set().contains(h) && !reg_mid.blob_dom().contains(
                    h,
                ) ==> registry.blobs.view_map()[h]@ == references.loaded_blobs.view_map()[h]@,
            registry.recipes == reg_mid.recipes,
            registry.bakes == reg_mid.bakes,
            registry.projects == reg_mid.projects,
            registry_closed(reg_mid) ==> registry_closed(*registry),
        decreases ln - i,
    {
        let h = lentries[i].0;
        let ghost prefix = lkeys@.subrange(0, i as int);
        proof {
            assert(lkeys@[i as int] == h);
            assert(prefix.push(h) =~= lkeys@.subrange(0, i + 1));
            prefix.lemma_push_to_set_commute(h);
        }
        if !known_loaded.contains(&h) {
            proof {
                assert(lkeys@.to_set().contains(h));
                assert(!reg_mid.blob_dom().contains(h));
                references.loaded_blobs.lemma_view();
                crate::keyed::lemma_map_of_index(references.loaded_blobs.pairs_seq(), i as int);
                assert(references.loaded_blobs.view_map()[h] == lentries@[i as int].1);
            }
            let copied = copy_bytes(&lentries[i].1);
            let ghost regprev = *registry;
            registry.send_blob(h, copied);
            proof {
                assert(registry.blob_dom() =~= reg_mid.blob_dom().union(
                    lkeys@.subrange(0, i + 1).to_set(),
                ));
                assert forall|h2: BlobHash|
                    lkeys@.subrange(0, i + 1).to_set().contains(h2)
                        && !reg_mid.blob_dom().contains(h2) implies registry.blobs.view_map()[h2]@
                    == references.loaded_blobs.view_map()[h2]@ by {
                    if h2 != h {
                        assert(prefix.to_set().contains(h2));
                        assert(regprev.blob_dom().contains(h2));
                        assert(registry.blobs.view_map()[h2] == regprev.blobs.view_map()[h2]);
                    }
                }
                assert forall|h2: BlobHash| #[trigger]
                    reg_mid.blob_dom().contains(h2) implies registry.blobs.view_map()[h2]
                    == reg_mid.blobs.view_map()[h2] by {
                    assert(h2 != h);
                    assert(regprev.blob_dom().contains(h2));
                }
            }
        } else {
            proof {
                assert(reg_mid.blob_dom().contains(h));
                assert(registry.blob_dom() =~= reg_mid.blob_dom().union(
                    lkeys@.subrange(0, i + 1).to_set(),
                ));
                assert forall|h2: BlobHash|
                    lkeys@.subrange(0, i + 1).to_set().contains(h2)
                        && !reg_mid.blob_dom().contains(h2) implies registry.blobs.view_map()[h2]@
                    == references.loaded_blobs.view_map()[h2]@ by {
                    assert(prefix.to_set().contains(h2));
                }
            }
        }
        i = i + 1;
    }
    proof {
        assert(lkeys@.subrange(0, ln as int) =~= lkeys@);
    }
    let ghost reg_loaded = *registry;

    // Project phase: post the project definitions the registry lacks.
    proof {
        references.projects.lemma_view();
    }
    let pentries = references.projects.entries();
    let pn = pentries.len();
    let mut pkeys: Vec<ProjectHash> = Vec::new();
    let mut j: usize = 0;
    while j < pn
        invariant
            j <= pn,
            pn == pentries@.len(),
            pentries@ == references.projects.pairs_seq(),
            pkeys@.len() == j,
            forall|t: int| 0 <= t < j ==> pkeys@[t] == pentries@[t].0,
        decreases pn - j,
    {
        pkeys.push(pentries[j].0);
        j = j + 1;
    }
    proof {
        assert(pkeys@ =~= crate::keyed::keys_of(references.projects.pairs_seq()));
        assert(pkeys@.to_set() =~= references.projects.view_map().dom());
        assert(pkeys@.no_duplicates());
    }
    let known_projects = registry.known_projects(&pkeys);
    let mut batch: Vec<Project> = Vec::new();
    let mut k: usize = 0;
    proof {
        assert(batch@.map_values(|p: Project| hash_of_project(p)).to_set()
            =~= pkeys@.subrange(0, 0).to_set().difference(reg_loaded.project_dom()));
    }
    while k < pn
        invariant
            k <= pn,
            pn == pentries@.len(),
            pentries@ == references.projects.pairs_seq(),
            references.wf(),
            pkeys@.len() == pn,
            forall|t: int| 0 <= t < pn ==> pkeys@[t] == pentries@[t].0,
            pkeys@.no_duplicates(),
            pkeys@.to_set() == references.projects.view_map().dom(),
            known_projects.wf(),
            known_projects.view_set() =~= pkeys@.to_set().intersect(reg_loaded.project_dom()),
            batch@.map_values(|p: Project| hash_of_project(p)).to_set() =~= pkeys@.subrange(
                0,
                k as int,
            ).to_set().difference(reg_loaded.project_dom()),
            forall|t: int|
                0 <= t < batch@.len() ==> {
                    let h = hash_of_project(#[trigger] batch@[t]);
                    &&& references.projects.view_map().dom().contains(h)
                    &&& !reg_loaded.project_dom().contains(h)
                    &&& batch@[t].definition@ == references.projects.view_map()[h].definition@
                },
        decreases pn - k,
    {
        let h = pentries[k].0;
        let ghost prefix = pkeys@.subrange(0, k as int);
        let ghost f = |p: Project| hash_of_project(p);
        proof {
            assert(pkeys@[k as int] == h);
            assert(prefix.push(h) =~= pkeys@.subrange(0, k + 1));
            prefix.lemma_push_to_set_commute(h);
        }
        if !known_projects.contains(&h) {
            proof {
                assert(pkeys@.to_set().contains(h));
                assert(!reg_loaded.project_dom().contains(h));
                references.projects.lemma_view();
                crate::keyed::lemma_map_of_index(references.projects.pairs_seq(), k as int);
                assert(references.projects.view_map()[h] == pentries@[k as int].1);
                assert(hash_of_project(pentries@[k as int].1) == h);
            }
            let ghost batch_prev = batch@;
            let c = crate::references::clone_project(&pentries[k].1);
            batch.push(c);
            proof {
                assert(batch@.map_values(f) =~= batch_prev.map_values(f).push(hash_of_project(c)));
                batch_prev.map_values(f).lemma_push_to_set_commute(hash_of_project(c));
                assert(hash_of_project(c) == h);
                assert(batch@.map_values(f).to_set() =~= pkeys@.subrange(
                    0,
                    k + 1,
                ).to_set().difference(reg_loaded.project_dom()));
            }
        } else {
            proof {
                assert(reg_loaded.project_dom().contains(h));
                assert(batch@.map_values(f).to_set() =~= pkeys@.subrange(
                    0,
                    k + 1,
                ).to_set().difference(reg_loaded.project_dom()));
            }
        }
        k = k + 1;
    }
    proof {
        assert(pkeys@.subrange(0, pn as int) =~= pkeys@);
    }
    registry.create_projects(batch);
    proof {
        assert(registry.project_dom() =~= reg0.project_dom().union(
            references.projects.view_map().dom(),
        )) by {
            assert(reg_loaded.project_dom() == reg0.project_dom());
            assert(registry.project_dom() =~= reg_loaded.project_dom().union(
                batch@.map_values(|p: Project| hash_of_project(p)).to_set(),
            ));
        }
        assert(registry.blob_dom() =~= reg0.blob_dom().union(
            references.recipes.blob_set(),
        ).union(references.loaded_blobs.view_map().dom())) by {
            assert(reg_mid.blob_dom() =~= reg0.blob_dom().union(references.recipes.blob_set()));
            assert(reg_loaded.blob_dom() =~= reg_mid.blob_dom().union(lkeys@.to_set()));
        }
        assert forall|h: ProjectHash| #[trigger]
            references.projects.view_map().dom().contains(h) && !reg0.project_dom().contains(
                h,
            ) implies registry.projects.view_map()[h].definition@
            == references.projects.view_map()[h].definition@ by {
            let f = |p: Project| hash_of_project(p);
            assert(reg_loaded.project_dom() == reg0.project_dom());
            assert(pkeys@.to_set().contains(h));
            assert(batch@.map_values(f).to_set().contains(h));
            let i = choose|i: int|
                {
                    let stored = registry.projects.view_map()[h];
                    &&& 0 <= i < batch@.len()
                    &&& hash_of_project(#[trigger] batch@[i]) == h
                    &&& stored.definition@ == batch@[i].definition@
                };
            assert(batch@[i].definition@ == references.projects.view_map()[h].definition@);
        }
        assert forall|h: BlobHash| #[trigger] reg0.blob_dom().contains(h) implies registry
            .blobs.view_map()[h] == reg0.blobs.view_map()[h] by {
            assert(reg_mid.blob_dom().contains(h));
            assert(reg_loaded.blobs.view_map()[h] == reg_mid.blobs.view_map()[h]);
            assert(reg_mid.blobs.view_map()[h] == reg0.blobs.view_map()[h]);
        }
    }
    Ok(())
}

/// The bake edge asserted by one (input recipe, output artifact) pair.
pub open spec fn bake_of(pair: (Recipe, Artifact)) -> Bake {
    Bake { input: hash_of_recipe(pair.0), output: hash_of_artifact(pair.1) }
}

/// The set of bake edges asserted by a list of pairs: duplicates collapse.
pub open spec fn bake_pair_set(bakes: Seq<(Recipe, Artifact)>) -> Set<Bake> {
    bakes.map_values(|p: (Recipe, Artifact)| bake_of(p)).to_set()
}

/// The closure seeds of a bake list: the input recipe's hash and the baked
/// output's complete-recipe hash, for each pair.
pub open spec fn seeds_of(bakes: Seq<(Recipe, Artifact)>) -> Seq<RecipeHash> {
    Seq::new(
        2 * bakes.len(),
        |i: int|
            if i % 2 == 0 {
                hash_of_recipe(bakes[i / 2].0)
            } else {
                RecipeHash(hash_of_artifact(bakes[i / 2].1).0)
            },
    )
}

/// Every blob embedded by a recipe of `s` is present in the blob store or
/// already with the registry: nothing in `s` can make an upload fail.
pub open spec fn blobs_available(
    store: RecipeStore,
    blob_store: BlobStore,
    reg: Registry,
    s: Set<RecipeHash>,
) -> bool {
    forall|h: RecipeHash| #[trigger]
        s.contains(h) ==> (forall|j: int|
            0 <= j < recipe_blobs(store.recipes.view_map()[h]).len() ==> blob_store.dom().contains(
                #[trigger] recipe_blobs(store.recipes.view_map()[h])[j],
            ) || reg.blob_dom().contains(recipe_blobs(store.recipes.view_map()[h])[j]))
}

/// The closure a successful bake reconciliation worked from: the least
/// closed reference set seeded by the bake pairs, and how the registry,
/// its contents and the counts relate to it.
pub open spec fn sync_bakes_refs_witness(
    store: RecipeStore,
    blob_store: BlobStore,
    reg0: Registry,
    reg1: Registry,
    bakes: Seq<(Recipe, Artifact)>,
    res: SyncBakesResults,
    refs: RecipeReferences,
) -> bool {
    &&& closure_of(store, seeds_of(bakes), refs)
    &&& reg1.blob_dom() =~= reg0.blob_dom().union(refs.blob_set())
    &&& reg1.recipe_dom() =~= reg0.recipe_dom().union(refs.recipe_dom())
    &&& forall|h: BlobHash| #[trigger]
        refs.blob_set().contains(h) && !reg0.blob_dom().contains(h)
            ==> reg1.blobs.view_map()[h]@ == blob_store.blobs.view_map()[h]@
    &&& forall|h: RecipeHash| #[trigger]
        refs.recipe_dom().contains(h) && !reg0.recipe_dom().contains(h) ==> {
            &&& ser_recipe(reg1.recipes.view_map()[h]) == ser_recipe(refs.recipes.view_map()[h])
            &&& child_hashes(reg1.recipes.view_map()[h]) == child_hashes(
                refs.recipes.view_map()[h],
            )
            &&& recipe_blobs(reg1.recipes.view_map()[h]) == recipe_blobs(
                refs.recipes.view_map()[h],
            )
        }
    &&& res.num_new_blobs == refs.blob_set().difference(reg0.blob_dom()).len()
    &&& res.num_new_recipes == refs.recipe_dom().difference(reg0.recipe_dom()).len()
}

/// What a successful bake reconciliation did: blobs and recipes were
/// reconciled from the pairs' closure, every asserted bake edge is now
/// known, the counts are the numbers of genuinely new items, and the
/// registry invariant is preserved.
pub open spec fn sync_bakes_post(
    store: RecipeStore,
    blob_store: BlobStore,
    reg0: Registry,
    reg1: Registry,
    bakes: Seq<(Recipe, Artifact)>,
    res: SyncBakesResults,
) -> bool {
    &&& reg1.wf()
    &&& exists|refs: RecipeReferences| #[trigger]
        sync_bakes_refs_witness(store, blob_store, reg0, reg1, bakes, res, refs)
    &&& reg1.bake_set() =~= reg0.bake_set().union(bake_pair_set(bakes))
    &&& res.num_new_bakes == bake_pair_set(bakes).difference(reg0.bake_set()).len()
    &&& forall|h: BlobHash| #[trigger]
        reg0.blob_dom().contains(h) ==> reg1.blobs.view_map()[h] == reg0.blobs.view_map()[h]
    &&& forall|h: RecipeHash| #[trigger]
        reg0.recipe_dom().contains(h) ==> reg1.recipes.view_map()[h] == reg0.recipes.view_map()[h]
    &&& reg1.projects == reg0.projects
    &&& (registry_closed(reg0) ==> registry_closed(reg1))
}

/// Reconciles baked (input recipe, output artifact) pairs with the
/// registry.
///
/// The pairs' transitive references are computed and reconciled first —
/// blobs, then recipes — and only then are the bake edges posted, so every
/// bake the registry learns points at recipes it already stores.
/// Duplicate pairs collapse; an empty list is a valid no-op.  Fails
/// exactly when a reachable recipe is missing from the local store or a
/// novel referenced blob is missing from the blob store.
#[verifier::rlimit(100)]
pub fn sync_bakes(
    store: &RecipeStore,
    blob_store: &BlobStore,
    registry: &mut Registry,
    bakes: &Vec<(Recipe, Artifact)>,
) -> (res: Result<SyncBakesResults, SyncError>)
    requires
        store.wf(),
        blob_store.wf(),
        old(registry).wf(),
    ensures
        match res {
            Ok(r) => sync_bakes_post(
                *store,
                *blob_store,
                *old(registry),
                *final(registry),
                bakes@,
                r,
            ),
            Err(e) => {
                &&& final(registry).wf()
                &&& final(registry).recipes == old(registry).recipes
                &&& final(registry).bakes == old(registry).bakes
                &&& final(registry).projects == old(registry).projects
                &&& forall|h: BlobHash| #[trigger]
                    old(registry).blob_dom().contains(h) ==> final(registry).blobs.view_map()[h]
                        == old(registry).blobs.view_map()[h]
                &&& (registry_closed(*old(registry)) ==> registry_closed(*final(registry)))
                &&& match e {
                    SyncError::MissingRecipe(h) => {
                        &&& !store.recipes.view_map().dom().contains(h)
                        &&& forall|s: Set<RecipeHash>| #[trigger]
                            covering(store.recipes.view_map(), seeds_of(bakes@), s) ==> s.contains(
                                h,
                            )
                    },
                    SyncError::MissingBlob(b) => {
                        &&& !blob_store.dom().contains(b)
                        &&& !old(registry).blob_dom().contains(b)
                        &&& exists|refs: RecipeReferences|
                            #[trigger] closure_of(*store, seeds_of(bakes@), refs)
                                && refs.blob_set().contains(b)
                    },
                }
            },
        },
        (exists|s: Set<RecipeHash>|
            #[trigger] covering(store.recipes.view_map(), seeds_of(bakes@), s) && blobs_available(
                *store,
                *blob_store,
                *old(registry),
                s,
            )) ==> res is Ok,
{
    let ghost reg0 = *registry;

    // Seed the closure with each input's hash and each output's hash.
    let n = bakes.len();
    let mut seeds: Vec<RecipeHash> = Vec::new();
    let mut i: usize = 0;
    while i < n
        invariant
            i <= n,
            n == bakes@.len(),
            seeds@.len() == 2 * i,
            forall|j: int| 0 <= j < 2 * i ==> seeds@[j] == seeds_of(bakes@)[j],
        decreases n - i,
    {
        let ih = recipe_hash(&bakes[i].0);
        let oh = artifact_hash(&bakes[i].1);
        seeds.push(ih);
        seeds.push(RecipeHash(oh.0));
        proof {
            assert(seeds@[2 * i as int] == seeds_of(bakes@)[2 * i as int]);
            assert(seeds@[2 * i as int + 1] == seeds_of(bakes@)[2 * i as int + 1]);
        }
        i = i + 1;
    }
    proof {
        assert(seeds@ =~= seeds_of(bakes@));
    }

    // Reconcile the closure: blobs first, then recipes.
    let ghost smap = store.recipes.view_map();
    let refs = match recipe_references(store, &seeds) {
        Ok(refs) => refs,
        Err(e) => {
            proof {
                let h = e->MissingRecipe_0;
                // any covering set would contain the missing hash inside
                // the store, which is absurd: none exists
                if exists|s: Set<RecipeHash>|
                    #[trigger] covering(smap, seeds_of(bakes@), s) && blobs_available(
                        *store,
                        *blob_store,
                        reg0,
                        s,
                    ) {
                    let s = choose|s: Set<RecipeHash>|
                        #[trigger] covering(smap, seeds_of(bakes@), s) && blobs_available(
                            *store,
                            *blob_store,
                            reg0,
                            s,
                        );
                    assert(covering(smap, seeds@, s));
                    assert(s.contains(h));
                    assert(smap.dom().contains(h));
                    assert(false);
                }
            }
            return Err(e);
        },
    };
    let sub = match sync_recipe_references(blob_store, registry, &refs) {
        Ok(sub) => sub,
        Err(e) => {
            proof {
                assert(closure_of(*store, seeds_of(bakes@), refs));
                let b = e->MissingBlob_0;
                assert(refs.blob_set().contains(b));
                // a covering with its blobs available would contain the
                // recipe that embeds the missing blob, which is absurd
                if exists|s: Set<RecipeHash>|
                    #[trigger] covering(smap, seeds_of(bakes@), s) && blobs_available(
                        *store,
                        *blob_store,
                        reg0,
                        s,
                    ) {
                    let s = choose|s: Set<RecipeHash>|
                        #[trigger] covering(smap, seeds_of(bakes@), s) && blobs_available(
                            *store,
                            *blob_store,
                            reg0,
                            s,
                        );
                    assert(refs.recipe_dom().subset_of(s));
                    let h = choose|h: RecipeHash|
                        refs.recipe_dom().contains(h) && recipe_blobs(
                            refs.recipes.view_map()[h],
                        ).contains(b);
                    assert(recipe_blobs(refs.recipes.view_map()[h]) == recipe_blobs(smap[h]));
                    assert(s.contains(h));
                    let j = choose|j: int|
                        0 <= j < recipe_blobs(smap[h]).len() && recipe_blobs(smap[h])[j] == b;
                    assert(blob_store.dom().contains(recipe_blobs(smap[h])[j]) || reg0.blob_dom(
                    ).contains(recipe_blobs(smap[h])[j]));
                    assert(false);
                }
            }
            return Err(e);
        },
    };
    let ghost reg_mid = *registry;

    // Collapse the pairs into a set of bake edges.
    let mut pair_set: AssocSet<Bake> = AssocSet::new();
    let mut i: usize = 0;
    while i < n
        invariant
            i <= n,
            n == bakes@.len(),
            pair_set.wf(),
            pair_set.view_set() =~= bake_pair_set(bakes@.subrange(0, i as int)),
        decreases n - i,
    {
        let b = Bake { input: recipe_hash(&bakes[i].0), output: artifact_hash(&bakes[i].1) };
        pair_set.insert(b);
        proof {
            let f = |p: (Recipe, Artifact)| bake_of(p);
            assert(bakes@.subrange(0, i + 1).map_values(f) =~= bakes@.subrange(
                0,
                i as int,
            ).map_values(f).push(bake_of(bakes@[i as int])));
            bakes@.subrange(0, i as int).map_values(f).lemma_push_to_set_commute(
                bake_of(bakes@[i as int]),
            );
            assert(pair_set.view_set() =~= bake_pair_set(bakes@.subrange(0, i + 1)));
        }
        i = i + 1;
    }
    proof {
        assert(bakes@.subrange(0, n as int) =~= bakes@);
        pair_set.lemma_view();
        reg0.bakes.lemma_view();
    }

    // Post each bake edge the registry lacks.
    let items = pair_set.items();
    let known_bakes = registry.known_bakes(items);
    let bn = items.len();
    let mut num_new_bakes: usize = 0;
    let mut i: usize = 0;
    proof {
        assert(items@.subrange(0, 0).to_set().difference(reg0.bake_set())
            =~= Set::<Bake>::empty());
        assert(registry.bake_set() =~= reg_mid.bake_set().union(
            items@.subrange(0, 0).to_set(),
        ));
        assert forall|b: Bake| #[trigger] bake_pair_set(bakes@).contains(b) implies registry
            .recipe_dom().contains(b.input) && registry.recipe_dom().contains(
            RecipeHash(b.output.0),
        ) by {
            let f = |p: (Recipe, Artifact)| bake_of(p);
            let mapped = bakes@.map_values(f);
            let t = choose|t: int| 0 <= t < mapped.len() && mapped[t] == b;
            assert(bake_of(bakes@[t]) == b);
            assert(seeds_of(bakes@)[2 * t] == hash_of_recipe(bakes@[t].0));
            assert(seeds_of(bakes@)[2 * t + 1] == RecipeHash(hash_of_artifact(bakes@[t].1).0));
            assert(refs.recipe_dom().contains(seeds_of(bakes@)[2 * t]));
            assert(refs.recipe_dom().contains(seeds_of(bakes@)[2 * t + 1]));
            assert(registry.recipe_dom() =~= reg0.recipe_dom().union(refs.recipe_dom()));
        }
    }
    while i < bn
        invariant
            i <= bn,
            bn == items@.len(),
            items@ == pair_set.items_seq(),
            items@.no_duplicates(),
            items@.to_set() == bake_pair_set(bakes@),
            known_bakes.wf(),
            known_bakes.view_set() =~= items@.to_set().intersect(reg_mid.bake_set()),
            reg_mid.bake_set() == reg0.bake_set(),
            registry.wf(),
            registry.bake_set() =~= reg_mid.bake_set().union(items@.subrange(0, i as int).to_set()),
            registry.blobs == reg_mid.blobs,
            registry.recipes == reg_mid.recipes,
            registry.projects == reg_mid.projects,
            num_new_bakes as int == items@.subrange(0, i as int).to_set().difference(
                reg0.bake_set(),
            ).len(),
            num_new_bakes <= i,
            registry_closed(reg_mid) ==> registry_closed(*registry),
            reg0.bake_set().finite(),
            forall|b: Bake| #[trigger]
                bake_pair_set(bakes@).contains(b) ==> registry.recipe_dom().contains(b.input)
                    && registry.recipe_dom().contains(RecipeHash(b.output.0)),
        decreases bn - i,
    {
        let b = items[i];
        let ghost prefix = items@.subrange(0, i as int);
        proof {
            assert(prefix.push(b) =~= items@.subrange(0, i + 1));
            assert(!prefix.contains(b)) by {
                assert(forall|j: int| 0 <= j < i ==> prefix[j] == items@[j]);
            }
            lemma_count_step(prefix, b, reg0.bake_set());
            assert(items@.to_set().contains(b)) by {
                assert(items@[i as int] == b);
            }
        }
        if !known_bakes.contains(&b) {
            registry.create_bake(b.input, b.output);
            num_new_bakes = num_new_bakes + 1;
            proof {
                prefix.lemma_push_to_set_commute(b);
                assert(registry.bake_set() =~= reg_mid.bake_set().union(
                    items@.subrange(0, i + 1).to_set(),
                ));
            }
        } else {
            proof {
                prefix.lemma_push_to_set_commute(b);
                assert(reg_mid.bake_set().contains(b));
                assert(registry.bake_set() =~= reg_mid.bake_set().union(
                    items@.subrange(0, i + 1).to_set(),
                ));
            }
        }
        i = i + 1;
    }
    proof {
        assert(items@.subrange(0, bn as int) =~= items@);
    }

    let res = SyncBakesResults {
        num_new_bakes,
        num_new_recipes: sub.num_new_recipes,
        num_new_blobs: sub.num_new_blobs,
    };
    proof {
        assert(sync_bakes_refs_witness(*store, *blob_store, reg0, *registry, bakes@, res, refs))
            by {
            assert(closure_of(*store, seeds_of(bakes@), refs));
            assert(registry.blob_dom() =~= reg0.blob_dom().union(refs.blob_set()));
            assert(registry.recipe_dom() =~= reg0.recipe_dom().union(refs.recipe_dom()));
            assert(registry.blobs == reg_mid.blobs);
            assert(registry.recipes == reg_mid.recipes);
        }
        assert(registry.bake_set() =~= reg0.bake_set().union(bake_pair_set(bakes@)));
    }
    Ok(res)
}

/// The recipe set of a closure is itself a covering of its seeds.
proof fn lemma_closure_dom_is_covering(
    store: RecipeStore,
    seeds: Seq<RecipeHash>,
    refs: RecipeReferences,
)
    requires
        closure_of(store, seeds, refs),
    ensures
        covering(store.recipes.view_map(), seeds, refs.recipe_dom()),
{
    let smap = store.recipes.view_map();
    assert forall|h: RecipeHash| #[trigger] refs.recipe_dom().contains(h) implies smap.dom(
    ).contains(h) && (forall|i: int|
        0 <= i < child_hashes(smap[h]).len() ==> refs.recipe_dom().contains(
            #[trigger] child_hashes(smap[h])[i],
        )) by {
        assert(recipe_refs_in(refs.recipes.view_map()[h], refs.recipe_dom(), refs.blob_set()));
        assert(child_hashes(refs.recipes.view_map()[h]) == child_hashes(smap[h]));
    }
}

/// After a successful bake reconciliation, running the same one again is
/// owed success: the first run's closure is a covering whose blobs are now
/// all with the registry, which is what `sync_bakes`' completeness clause
/// asks for.
pub proof fn lemma_resync_cannot_fail(
    store: RecipeStore,
    blob_store: BlobStore,
    reg0: Registry,
    reg1: Registry,
    bakes: Seq<(Recipe, Artifact)>,
    res1: SyncBakesResults,
)
    requires
        sync_bakes_post(store, blob_store, reg0, reg1, bakes, res1),
    ensures
        exists|s: Set<RecipeHash>|
            #[trigger] covering(store.recipes.view_map(), seeds_of(bakes), s) && blobs_available(
                store,
                blob_store,
                reg1,
                s,
            ),
{
    let smap = store.recipes.view_map();
    let refs1 = choose|refs: RecipeReferences| #[trigger]
        sync_bakes_refs_witness(store, blob_store, reg0, reg1, bakes, res1, refs);
    lemma_closure_dom_is_covering(store, seeds_of(bakes), refs1);
    assert(blobs_available(store, blob_store, reg1, refs1.recipe_dom())) by {
        assert forall|h: RecipeHash| #[trigger] refs1.recipe_dom().contains(h) implies (forall|
            j: int,
        |
            0 <= j < recipe_blobs(smap[h]).len() ==> blob_store.dom().contains(
                #[trigger] recipe_blobs(smap[h])[j],
            ) || reg1.blob_dom().contains(recipe_blobs(smap[h])[j])) by {
            assert(recipe_refs_in(
                refs1.recipes.view_map()[h],
                refs1.recipe_dom(),
                refs1.blob_set(),
            ));
            assert(recipe_blobs(refs1.recipes.view_map()[h]) == recipe_blobs(smap[h]));
            assert forall|j: int|
                0 <= j < recipe_blobs(smap[h]).len() implies blob_store.dom().contains(
                #[trigger] recipe_blobs(smap[h])[j],
            ) || reg1.blob_dom().contains(recipe_blobs(smap[h])[j]) by {
                assert(refs1.blob_set().contains(recipe_blobs(refs1.recipes.view_map()[h])[j]));
                assert(reg1.blob_dom() =~= reg0.blob_dom().union(refs1.blob_set()));
            }
        }
    }
    assert(covering(smap, seeds_of(bakes), refs1.recipe_dom()) && blobs_available(
        store,
        blob_store,
        reg1,
        refs1.recipe_dom(),
    ));
}

/// Running the same bake reconciliation twice in a row finds nothing new
/// the second time: the first run left the registry holding every blob,
/// recipe and bake edge the pairs can reach, so the second run cannot
/// fail (`lemma_resync_cannot_fail`) and its counts are all zero.
pub proof fn lemma_sync_bakes_idempotent(
    store: RecipeStore,
    blob_store: BlobStore,
    reg0: Registry,
    reg1: Registry,
    reg2: Registry,
    bakes: Seq<(Recipe, Artifact)>,
    res1: SyncBakesResults,
    res2: SyncBakesResults,
)
    requires
        sync_bakes_post(store, blob_store, reg0, reg1, bakes, res1),
        sync_bakes_post(store, blob_store, reg1, reg2, bakes, res2),
    ensures
        res2.num_new_bakes == 0,
        res2.num_new_recipes == 0,
        res2.num_new_blobs == 0,
{
    let smap = store.recipes.view_map();
    let refs1 = choose|refs: RecipeReferences| #[trigger]
        sync_bakes_refs_witness(store, blob_store, reg0, reg1, bakes, res1, refs);
    let refs2 = choose|refs: RecipeReferences| #[trigger]
        sync_bakes_refs_witness(store, blob_store, reg1, reg2, bakes, res2, refs);
    assert(closure_of(store, seeds_of(bakes), refs1));
    assert(closure_of(store, seeds_of(bakes), refs2));

    // the first run's recipe set is itself a covering, so the second run's
    // least closure lies inside it
    lemma_closure_dom_is_covering(store, seeds_of(bakes), refs1);
    assert(refs2.recipe_dom().subset_of(refs1.recipe_dom()));

    // no new recipes: everything the second run covers is already stored
    assert(refs2.recipe_dom().difference(reg1.recipe_dom()) =~= Set::<RecipeHash>::empty()) by {
        assert(reg1.recipe_dom() =~= reg0.recipe_dom().union(refs1.recipe_dom()));
    }

    // no new blobs: each blob the second run covers is embedded by a
    // covered recipe, which the first run already reconciled
    assert(refs2.blob_set().difference(reg1.blob_dom()) =~= Set::<BlobHash>::empty()) by {
        assert forall|b: BlobHash| refs2.blob_set().contains(b) implies reg1.blob_dom().contains(
            b,
        ) by {
            let h = choose|h: RecipeHash|
                refs2.recipe_dom().contains(h) && recipe_blobs(
                    refs2.recipes.view_map()[h],
                ).contains(b);
            assert(recipe_blobs(refs2.recipes.view_map()[h]) == recipe_blobs(smap[h]));
            assert(refs1.recipe_dom().contains(h));
            assert(recipe_blobs(refs1.recipes.view_map()[h]) == recipe_blobs(smap[h]));
            assert(recipe_refs_in(
                refs1.recipes.view_map()[h],
                refs1.recipe_dom(),
                refs1.blob_set(),
            ));
            let i = choose|i: int|
                0 <= i < recipe_blobs(smap[h]).len() && recipe_blobs(smap[h])[i] == b;
            assert(refs1.blob_set().contains(recipe_blobs(refs1.recipes.view_map()[h])[i]));
            assert(reg1.blob_dom() =~= reg0.blob_dom().union(refs1.blob_set()));
        }
    }

    // no new bakes: the first run posted every pair
    assert(bake_pair_set(bakes).difference(reg1.bake_set()) =~= Set::<Bake>::empty()) by {
        assert(reg1.bake_set() =~= reg0.bake_set().union(bake_pair_set(bakes)));
    }
}

} // verus!
