//! The canonical store: repository CRUD, pins, scan roots, collections and
//! the index-backed searches, on concrete data.

use repo_store::data_store::DataStore;
use repo_store::repo_types::{GitRepository, RepositoryCache, StoreError};

fn repo(name: &str, path: &str, size_mb: u64, commits: u32) -> GitRepository {
    GitRepository {
        name: name.to_string(),
        path: path.to_string(),
        size_mb,
        file_types: vec![("rs".to_string(), 3)],
        last_commit_date: Some(1_700_000_000),
        current_branch: Some("main".to_string()),
        branches: vec!["main".to_string()],
        remote_url: None,
        commit_count: commits,
        last_analyzed: 1_700_000_100,
        is_valid: true,
        is_pinned: false,
        pinned_at: None,
        node_modules_info: None,
    }
}

fn fresh_store() -> DataStore {
    DataStore::new(RepositoryCache::empty(1_700_000_000), "cache.bin".to_string())
}

#[test]
fn add_and_fetch_repository() {
    let mut store = fresh_store();
    store.add_repository(repo("alpha", "/r/alpha", 10, 5), 1);
    let got = store.get_repository_fast("/r/alpha").unwrap();
    assert_eq!(got.name, "alpha");
    // A second read is served from the recency cache and must agree.
    let again = store.get_repository_fast("/r/alpha").unwrap();
    assert_eq!(again, got);
    assert!(store.get_repository_fast("/r/zeta").is_none());
}

#[test]
fn remove_repository_updates_everything() {
    let mut store = fresh_store();
    store.add_repository(repo("alpha", "/r/alpha", 10, 5), 1);
    store.remove_repository_optimized("/r/alpha", 2);
    assert!(store.get_repository_fast("/r/alpha").is_none());
    assert!(store.find_repositories_under_path_optimized("/r").is_empty());
    assert!(store.advanced_search(Some("al"), None, None, None).is_empty());
}

#[test]
fn pin_toggle_twice_restores_original_state() {
    let mut store = fresh_store();
    store.add_repository(repo("alpha", "/r/alpha", 10, 5), 1);

    let pinned = store.toggle_repository_pin("/r/alpha", 100).unwrap();
    assert!(pinned.is_pinned);
    assert_eq!(pinned.pinned_at, Some(100));

    let unpinned = store.toggle_repository_pin("/r/alpha", 200).unwrap();
    assert!(!unpinned.is_pinned);
    assert_eq!(unpinned.pinned_at, None);

    let original = repo("alpha", "/r/alpha", 10, 5);
    assert_eq!(unpinned.is_pinned, original.is_pinned);
    assert_eq!(unpinned.pinned_at, original.pinned_at);
}

#[test]
fn pin_toggle_missing_path_is_not_found() {
    let mut store = fresh_store();
    assert_eq!(store.toggle_repository_pin("/r/none", 1), Err(StoreError::NotFound));
}

#[test]
fn pinned_repositories_are_listed() {
    let mut store = fresh_store();
    store.add_repository(repo("alpha", "/r/alpha", 10, 5), 1);
    store.add_repository(repo("beta", "/r/beta", 20, 5), 2);
    store.toggle_repository_pin("/r/beta", 3).unwrap();
    let pinned = store.get_pinned_repositories();
    assert_eq!(pinned.len(), 1);
    assert_eq!(pinned[0].path, "/r/beta");
}

#[test]
fn scan_roots_count_prefixed_repositories() {
    let mut store = fresh_store();
    store.add_repository(repo("alpha", "/home/u/alpha", 10, 5), 1);
    store.add_repository(repo("beta", "/home/u/beta", 10, 5), 2);
    store.add_repository(repo("gamma", "/srv/gamma", 10, 5), 3);

    store.add_scan_path("/home/u".to_string(), 50);
    let roots = store.get_scan_paths();
    assert_eq!(roots.len(), 1);
    assert_eq!(roots[0].repository_count, 2);
    assert_eq!(roots[0].last_scanned, Some(50));

    store.add_repository(repo("delta", "/home/u/delta", 10, 5), 4);
    store.update_scan_path_last_scanned("/home/u", 60);
    let roots = store.get_scan_paths();
    assert_eq!(roots[0].repository_count, 3);
    assert_eq!(roots[0].last_scanned, Some(60));

    store.remove_scan_path("/home/u", 70);
    assert!(store.get_scan_paths().is_empty());
    // Forgetting the root never deletes the repositories under it.
    assert!(store.get_repository_fast("/home/u/alpha").is_some());
}

#[test]
fn collection_membership_rules() {
    let mut store = fresh_store();
    store.add_repository(repo("alpha", "/r/alpha", 10, 5), 1);
    let coll = store.create_collection("work".to_string(), "#112233".to_string(), 2).unwrap();
    assert_eq!(coll.id.len(), 36);

    // Adding a path that no record carries fails with NotFound.
    assert_eq!(
        store.add_repository_to_collection(&coll.id, "/r/none", 3),
        Err(StoreError::NotFound)
    );
    // Adding to an unknown collection fails with NotFound.
    assert_eq!(
        store.add_repository_to_collection("no-such-id", "/r/alpha", 3),
        Err(StoreError::NotFound)
    );
    // Adding twice is a no-op.
    store.add_repository_to_collection(&coll.id, "/r/alpha", 4).unwrap();
    store.add_repository_to_collection(&coll.id, "/r/alpha", 5).unwrap();
    let members = store.get_repositories_in_collection(&coll.id).unwrap();
    assert_eq!(members.len(), 1);
    assert_eq!(members[0].path, "/r/alpha");

    // Removing the collection does not delete the underlying repositories.
    store.delete_collection(&coll.id, 6).unwrap();
    assert_eq!(
        store.get_repositories_in_collection(&coll.id),
        Err(StoreError::NotFound)
    );
    assert!(store.get_repository_fast("/r/alpha").is_some());
}

#[test]
fn collection_names_are_unique() {
    let mut store = fresh_store();
    store.create_collection("work".to_string(), "#112233".to_string(), 1).unwrap();
    assert_eq!(
        store.create_collection("work".to_string(), "#445566".to_string(), 2),
        Err(StoreError::DuplicateName)
    );
}

#[test]
fn dangling_collection_members_are_filtered_on_read() {
    let mut store = fresh_store();
    store.add_repository(repo("alpha", "/r/alpha", 10, 5), 1);
    store.add_repository(repo("beta", "/r/beta", 10, 5), 2);
    let coll = store.create_collection("work".to_string(), "#112233".to_string(), 3).unwrap();
    store.add_repository_to_collection(&coll.id, "/r/alpha", 4).unwrap();
    store.add_repository_to_collection(&coll.id, "/r/beta", 5).unwrap();

    store.remove_repository_optimized("/r/alpha", 6);
    let members = store.get_repositories_in_collection(&coll.id).unwrap();
    assert_eq!(members.len(), 1);
    assert_eq!(members[0].path, "/r/beta");

    store.remove_repository_from_collection(&coll.id, "/r/beta", 7).unwrap();
    assert!(store.get_repositories_in_collection(&coll.id).unwrap().is_empty());
}

#[test]
fn validation_partitions_records() {
    let mut store = fresh_store();
    store.add_repository(repo("alpha", "/r/alpha", 10, 5), 1);
    store.add_repository(repo("beta", "/r/beta", 10, 5), 2);
    let existing = vec!["/r/beta".to_string()];

    let (valid, invalid) = store.validate_repositories(&existing);
    assert_eq!(valid.len(), 1);
    assert_eq!(valid[0].path, "/r/beta");
    assert!(valid[0].is_valid);
    assert_eq!(invalid, vec!["/r/alpha".to_string()]);

    let info = store.get_cache_info(&existing, 4096);
    assert_eq!(info.total_repositories, 2);
    assert_eq!(info.valid_repositories, 1);
    assert_eq!(info.invalid_repositories, 1);
    assert_eq!(info.cache_file_size, 4096);

    let removed = store.cleanup_invalid_repositories(&existing, 9);
    assert_eq!(removed, 1);
    assert!(store.get_repository_fast("/r/alpha").is_none());
    assert!(store.get_repository_fast("/r/beta").is_some());

    // With nothing stale, cleanup is a no-op.
    assert_eq!(store.cleanup_invalid_repositories(&existing, 10), 0);
}

#[test]
fn advanced_search_intersects_predicates() {
    let mut store = fresh_store();
    let mut a = repo("webapp", "/r/webapp", 120, 40);
    a.file_types = vec![("ts".to_string(), 9)];
    let mut b = repo("weather", "/r/weather", 10, 900);
    b.file_types = vec![("rs".to_string(), 5)];
    let mut c = repo("backend", "/r/backend", 130, 80);
    c.file_types = vec![("ts".to_string(), 2)];
    store.add_repository(a, 1);
    store.add_repository(b, 2);
    store.add_repository(c, 3);

    // No predicate: everything.
    assert_eq!(store.advanced_search(None, None, None, None).len(), 3);
    // Name prefix alone.
    let by_name = store.advanced_search(Some("we"), None, None, None);
    assert_eq!(by_name.len(), 2);
    // Name prefix and size range together.
    let narrowed = store.advanced_search(Some("we"), Some(100), Some(200), None);
    assert_eq!(narrowed.len(), 1);
    assert_eq!(narrowed[0].path, "/r/webapp");
    // A size bound on one side only is ignored.
    assert_eq!(store.advanced_search(None, Some(100), None, None).len(), 3);
    // File type alone.
    let ts = store.advanced_search(None, None, None, Some("ts"));
    assert_eq!(ts.len(), 2);
    // All three.
    let all = store.advanced_search(Some("b"), Some(100), Some(200), Some("ts"));
    assert_eq!(all.len(), 1);
    assert_eq!(all[0].path, "/r/backend");
}

#[test]
fn upsert_replaces_by_path() {
    let mut store = fresh_store();
    store.add_repository(repo("alpha", "/r/alpha", 10, 5), 1);
    let mut renamed = repo("renamed", "/r/alpha", 300, 5);
    renamed.file_types = vec![("go".to_string(), 2)];
    store.add_repository_optimized(renamed, 2);

    let got = store.get_repository_fast("/r/alpha").unwrap();
    assert_eq!(got.name, "renamed");
    assert_eq!(got.size_mb, 300);
    // The old index entries are gone with the replaced record.
    assert!(store.advanced_search(Some("alpha"), None, None, None).is_empty());
    assert_eq!(store.advanced_search(None, None, None, Some("go")).len(), 1);
    assert_eq!(store.get_optimization_stats().total_repositories, 1);
}

#[test]
fn clear_cache_empties_the_store() {
    let mut store = fresh_store();
    store.add_repository(repo("alpha", "/r/alpha", 10, 5), 1);
    store.create_collection("work".to_string(), "#112233".to_string(), 2).unwrap();
    store.clear_cache(3);
    assert!(store.get_repository_fast("/r/alpha").is_none());
    assert!(store.get_collections().is_empty());
    assert!(store.get_scan_paths().is_empty());
    assert_eq!(store.get_cache_file_path_string(), "cache.bin");
}

#[test]
fn fast_lookup_never_serves_stale_pins() {
    let mut store = fresh_store();
    store.add_repository(repo("alpha", "/r/alpha", 10, 5), 1);
    // Warm the recency cache, then write through the store.
    assert!(!store.get_repository_fast("/r/alpha").unwrap().is_pinned);
    store.toggle_repository_pin("/r/alpha", 2).unwrap();
    // The cached copy must agree with the canonical document.
    let got = store.get_repository_fast("/r/alpha").unwrap();
    assert!(got.is_pinned);
    assert_eq!(got.pinned_at, Some(2));
}

#[test]
fn rebuild_keeps_queries_working() {
    let mut store = fresh_store();
    store.add_repository(repo("alpha", "/r/alpha", 10, 5), 1);
    store.toggle_repository_pin("/r/alpha", 2).unwrap();
    store.rebuild_optimizations();
    assert_eq!(store.find_repositories_under_path_optimized("/r").len(), 1);
    assert_eq!(store.advanced_search(Some("al"), None, None, None).len(), 1);
    let stats = store.get_optimization_stats();
    assert_eq!(stats.total_repositories, 1);
    assert_eq!(stats.lru_cache_capacity, 1000);
    assert_eq!(stats.index_name_entries, 1);
}

#[test]
fn save_and_reload_preserves_the_store() {
    let mut store = fresh_store();
    store.add_repository(repo("alpha", "/r/alpha", 10, 5), 1);
    store.toggle_repository_pin("/r/alpha", 2).unwrap();
    let bytes = store.save_cache();
    let (doc, needs_save) = repo_store::codec::load_document(&bytes, 3).unwrap();
    assert!(!needs_save);
    let mut reopened = DataStore::new(doc, "cache.bin".to_string());
    let got = reopened.get_repository_fast("/r/alpha").unwrap();
    assert!(got.is_pinned);
}
