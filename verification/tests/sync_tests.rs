use brioche::blob::{BlobStore, SavePermitGate};
use brioche::recipe::{artifact_hash, recipe_hash, Artifact, Directory, Recipe};
use brioche::references::{recipe_references, Project, ProjectReferences, RecipeStore, SyncError};
use brioche::registry::Registry;
use brioche::sync::{sync_bakes, sync_project_references, sync_recipe_references};

fn file_recipe(blob: brioche::digest::BlobHash) -> Recipe {
    Recipe::CreateFile { blob, executable: false }
}

#[test]
fn empty_sync_is_a_no_op() {
    let store = RecipeStore::new();
    let blob_store = BlobStore::new();
    let mut registry = Registry::new();
    let bakes: Vec<(Recipe, Artifact)> = Vec::new();
    let res = sync_bakes(&store, &blob_store, &mut registry, &bakes).unwrap();
    assert_eq!(res.num_new_bakes, 0);
    assert_eq!(res.num_new_recipes, 0);
    assert_eq!(res.num_new_blobs, 0);
}

#[test]
fn single_new_bake_uploads_everything_once() {
    // one recipe referencing one blob, producing one artifact
    let mut store = RecipeStore::new();
    let mut blob_store = BlobStore::new();
    let mut gate = SavePermitGate::new(4);
    let permit = gate.try_acquire().unwrap();
    let blob_hash = blob_store.save_blob(&permit, b"hello blob".to_vec());
    gate.release(permit);

    let input = file_recipe(blob_hash);
    let output = Artifact::File {
        blob: blob_hash,
        executable: false,
        resources: Directory::new(),
    };
    // the store holds the input recipe and the output's complete form
    let input2 = file_recipe(blob_hash);
    store.insert_recipe(input2);
    let output2 = Artifact::File {
        blob: blob_hash,
        executable: false,
        resources: Directory::new(),
    };
    store.insert_recipe(Recipe::Complete(output2));

    let mut registry = Registry::new();
    let mut bakes: Vec<(Recipe, Artifact)> = Vec::new();
    bakes.push((input, output));
    let res = sync_bakes(&store, &blob_store, &mut registry, &bakes).unwrap();
    assert_eq!(res.num_new_bakes, 1);
    assert_eq!(res.num_new_recipes, 2);
    assert_eq!(res.num_new_blobs, 1);

    // running the same sync again finds nothing new
    let res2 = sync_bakes(&store, &blob_store, &mut registry, &bakes).unwrap();
    assert_eq!(res2.num_new_bakes, 0);
    assert_eq!(res2.num_new_recipes, 0);
    assert_eq!(res2.num_new_blobs, 0);
}

#[test]
fn closure_walks_transitive_references() {
    // r1 embeds r2; r2 embeds a blob
    let mut store = RecipeStore::new();
    let mut blob_store = BlobStore::new();
    let mut gate = SavePermitGate::new(1);
    let permit = gate.try_acquire().unwrap();
    let blob_hash = blob_store.save_blob(&permit, b"leaf bytes".to_vec());
    gate.release(permit);

    let r2 = file_recipe(blob_hash);
    let h2 = recipe_hash(&r2);
    store.insert_recipe(r2);
    let r1 = Recipe::Unpack { archive: h2 };
    let h1 = store.insert_recipe(r1);

    let mut seeds = Vec::new();
    seeds.push(h1);
    let refs = recipe_references(&store, &seeds).unwrap();
    assert_eq!(refs.recipes.len(), 2);
    assert!(refs.recipes.contains_key(&h1));
    assert!(refs.recipes.contains_key(&h2));
    assert_eq!(refs.blobs.len(), 1);
    assert!(refs.blobs.contains(&blob_hash));
}

#[test]
fn closure_reports_the_missing_recipe() {
    let mut store = RecipeStore::new();
    let blob = brioche::digest::BlobHash(brioche::digest::hash_bytes(b"x"));
    let r2 = file_recipe(blob);
    let h2 = recipe_hash(&r2);
    // r2 is *not* stored
    let h1 = store.insert_recipe(Recipe::Unpack { archive: h2 });
    let mut seeds = Vec::new();
    seeds.push(h1);
    match recipe_references(&store, &seeds) {
        Err(SyncError::MissingRecipe(h)) => assert_eq!(h, h2),
        _ => panic!("expected a missing-recipe error"),
    }
}

#[test]
fn sync_recipe_references_reports_missing_blob() {
    let mut store = RecipeStore::new();
    let blob = brioche::digest::BlobHash(brioche::digest::hash_bytes(b"never saved"));
    let h1 = store.insert_recipe(file_recipe(blob));
    let mut seeds = Vec::new();
    seeds.push(h1);
    let refs = recipe_references(&store, &seeds).unwrap();
    let blob_store = BlobStore::new();
    let mut registry = Registry::new();
    match sync_recipe_references(&blob_store, &mut registry, &refs) {
        Err(SyncError::MissingBlob(b)) => assert_eq!(b, blob),
        _ => panic!("expected a missing-blob error"),
    }
    // blobs come before recipes, so the failed blob phase means no
    // recipe was posted: the registry never dangles
    let mut asked = Vec::new();
    asked.push(h1);
    let known = registry.known_recipes(&asked);
    assert_eq!(known.len(), 0);
}

#[test]
fn project_references_sync_loaded_blobs_and_projects() {
    let blob_store = BlobStore::new();
    let mut registry = Registry::new();
    let mut refs = ProjectReferences::new();
    let loaded = refs.insert_loaded_blob(b"in-memory source file".to_vec());
    refs.insert_project(Project { definition: b"project definition".to_vec() });
    sync_project_references(&blob_store, &mut registry, &refs).unwrap();
    // the loaded blob went straight from memory
    let mut asked = Vec::new();
    asked.push(loaded);
    let known = registry.known_blobs(&asked);
    assert_eq!(known.len(), 1);
    // a second run finds everything known
    sync_project_references(&blob_store, &mut registry, &refs).unwrap();
}

#[test]
fn artifact_hash_matches_complete_recipe_hash() {
    let a = Artifact::Symlink { target: b"target/path".to_vec() };
    let ah = artifact_hash(&a);
    let rh = recipe_hash(&Recipe::Complete(Artifact::Symlink { target: b"target/path".to_vec() }));
    assert_eq!(ah.0, rh.0);
}

#[test]
fn project_sync_stores_the_given_definitions() {
    let blob_store = BlobStore::new();
    let mut registry = Registry::new();
    let mut refs = ProjectReferences::new();
    let h = refs.insert_project(Project { definition: b"pinned definition".to_vec() });
    sync_project_references(&blob_store, &mut registry, &refs).unwrap();
    let mut asked = Vec::new();
    asked.push(h);
    let known = registry.known_projects(&asked);
    assert_eq!(known.len(), 1);
}
