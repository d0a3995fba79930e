//! The on-disk codec: round trips, schema migration, color healing and the
//! rejection of unparseable bytes.

use repo_store::codec::{load_document, save_document, save_old_document};
use repo_store::codec::{OldGitRepository, OldRepositoryCache};
use repo_store::repo_types::{
    Collection, GitRepository, NodeModulesInfo, RepositoryCache, ScanPath, StoreError,
};

fn populated_document() -> RepositoryCache {
    RepositoryCache {
        repositories: vec![GitRepository {
            name: "alpha".to_string(),
            path: "/r/alpha".to_string(),
            size_mb: 42,
            file_types: vec![("rs".to_string(), 7), ("md".to_string(), 2)],
            last_commit_date: Some(1_699_999_999),
            current_branch: Some("main".to_string()),
            branches: vec!["main".to_string(), "dev".to_string()],
            remote_url: Some("https://example.test/alpha.git".to_string()),
            commit_count: 321,
            last_analyzed: 1_700_000_000,
            is_valid: true,
            is_pinned: true,
            pinned_at: Some(-5),
            node_modules_info: Some(NodeModulesInfo {
                total_size_mb: 9000,
                count: 2,
                paths: vec!["/r/alpha/node_modules".to_string()],
                last_scanned: 1_700_000_001,
                package_json_modified: 1_600_000_000,
            }),
        }],
        scan_paths: vec![ScanPath {
            path: "/r".to_string(),
            last_scanned: Some(1_700_000_002),
            repository_count: 1,
        }],
        collections: vec![Collection {
            id: "id-1".to_string(),
            name: "favorites \u{00e9}\u{6f22}".to_string(),
            color: "#112233".to_string(),
            repository_paths: vec!["/r/alpha".to_string()],
            created_at: 1_700_000_003,
        }],
        last_updated: 1_700_000_004,
        cache_version: "1.4".to_string(),
    }
}

#[test]
fn round_trip_restores_every_field() {
    let doc = populated_document();
    let bytes = save_document(&doc);
    let (loaded, needs_save) = load_document(&bytes, 9_999).unwrap();
    assert!(!needs_save);
    assert_eq!(loaded, doc);
}

#[test]
fn round_trip_of_an_empty_document() {
    let doc = RepositoryCache::empty(77);
    let bytes = save_document(&doc);
    let (loaded, needs_save) = load_document(&bytes, 9_999).unwrap();
    assert!(!needs_save);
    assert_eq!(loaded, doc);
    assert!(loaded.repositories.is_empty());
    assert!(loaded.collections.is_empty());
}

#[test]
fn migration_fills_defaults_and_saves_once() {
    let old = OldRepositoryCache {
        repositories: vec![OldGitRepository {
            name: "legacy".to_string(),
            path: "/r/legacy".to_string(),
            size_mb: 8,
            file_types: vec![("c".to_string(), 11)],
            last_commit_date: None,
            current_branch: Some("trunk".to_string()),
            branches: vec!["trunk".to_string()],
            remote_url: None,
            commit_count: 99,
            last_analyzed: 1_500_000_000,
            is_valid: true,
        }],
        scan_paths: vec![ScanPath {
            path: "/r".to_string(),
            last_scanned: None,
            repository_count: 1,
        }],
        last_updated: 1_500_000_001,
        cache_version: "1.3".to_string(),
    };
    let bytes = save_old_document(&old);

    let (migrated, needs_save) = load_document(&bytes, 42).unwrap();
    assert!(needs_save);
    assert_eq!(migrated.cache_version, "1.4");
    assert!(migrated.collections.is_empty());
    assert_eq!(migrated.last_updated, 1_500_000_001);
    assert_eq!(migrated.repositories.len(), 1);
    let rec = &migrated.repositories[0];
    assert_eq!(rec.name, "legacy");
    assert!(!rec.is_pinned);
    assert_eq!(rec.pinned_at, None);
    assert!(rec.node_modules_info.is_none());
    assert_eq!(rec.commit_count, 99);

    // Once re-saved, loading again owes no second migration.
    let again = save_document(&migrated);
    let (reloaded, needs_save_again) = load_document(&again, 43).unwrap();
    assert!(!needs_save_again);
    assert_eq!(reloaded, migrated);
}

#[test]
fn empty_collection_colors_are_healed_once() {
    let mut doc = populated_document();
    doc.collections[0].color = String::new();
    let bytes = save_document(&doc);

    let (healed, needs_save) = load_document(&bytes, 555).unwrap();
    assert!(needs_save);
    assert_eq!(healed.collections[0].color, "#e5e7eb");
    assert_eq!(healed.last_updated, 555);

    let again = save_document(&healed);
    let (reloaded, needs_save_again) = load_document(&again, 556).unwrap();
    assert!(!needs_save_again);
    assert_eq!(reloaded, healed);
}

#[test]
fn unparseable_bytes_are_a_schema_error() {
    assert_eq!(load_document(&Vec::new(), 1), Err(StoreError::SchemaError));
    assert_eq!(load_document(&vec![9u8, 9, 9], 1), Err(StoreError::SchemaError));
    // A truncated current-generation document fails too.
    let mut bytes = save_document(&populated_document());
    bytes.pop();
    assert_eq!(load_document(&bytes, 1), Err(StoreError::SchemaError));
}

#[test]
fn colliding_keys_are_a_schema_error() {
    let mut doc = populated_document();
    let dup = doc.repositories[0].clone();
    doc.repositories.push(dup);
    let bytes = save_document(&doc);
    assert_eq!(load_document(&bytes, 1), Err(StoreError::SchemaError));
}
