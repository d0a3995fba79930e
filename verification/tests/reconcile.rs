//! Reconciliation of fresh analysis output with stored state: annotation
//! preservation and the dependency-rescan rule.

use repo_store::reconcile::{choose_node_modules_info, merge_annotations, should_scan_node_modules};
use repo_store::repo_types::{GitRepository, NodeModulesInfo};

fn analyzed(path: &str) -> GitRepository {
    GitRepository {
        name: "proj".to_string(),
        path: path.to_string(),
        size_mb: 5,
        file_types: vec![("rs".to_string(), 1)],
        last_commit_date: Some(1_700_000_000),
        current_branch: Some("main".to_string()),
        branches: vec!["main".to_string()],
        remote_url: None,
        commit_count: 12,
        last_analyzed: 1_700_000_500,
        is_valid: true,
        is_pinned: false,
        pinned_at: None,
        node_modules_info: None,
    }
}

fn summary(manifest_seen: i64) -> NodeModulesInfo {
    NodeModulesInfo {
        total_size_mb: 123,
        count: 1,
        paths: vec!["/p/node_modules".to_string()],
        last_scanned: 1_700_000_000,
        package_json_modified: manifest_seen,
    }
}

#[test]
fn merging_preserves_pin_annotations() {
    let mut stored = analyzed("/p");
    stored.is_pinned = true;
    stored.pinned_at = Some(1_600_000_000);
    stored.size_mb = 999;

    let fresh = analyzed("/p");
    let merged = merge_annotations(fresh, Some(&stored));

    // Annotations come from the stored record, everything else from analysis.
    assert!(merged.is_pinned);
    assert_eq!(merged.pinned_at, Some(1_600_000_000));
    assert_eq!(merged.size_mb, 5);
    assert_eq!(merged.last_analyzed, 1_700_000_500);
}

#[test]
fn merging_without_stored_state_changes_nothing() {
    let fresh = analyzed("/p");
    let merged = merge_annotations(fresh.clone(), None);
    assert_eq!(merged, fresh);
}

#[test]
fn rescan_is_skipped_when_manifest_is_not_newer() {
    let mut stored = analyzed("/p");
    stored.node_modules_info = Some(summary(1_000));

    // Equal modification time: skip, and the summary is carried forward whole.
    assert!(!should_scan_node_modules(1_000, Some(&stored)));
    let kept = choose_node_modules_info(false, None, Some(&stored));
    assert_eq!(kept, Some(summary(1_000)));

    // Older manifest: still skipped.
    assert!(!should_scan_node_modules(999, Some(&stored)));
}

#[test]
fn rescan_happens_when_manifest_is_strictly_newer() {
    let mut stored = analyzed("/p");
    stored.node_modules_info = Some(summary(1_000));

    assert!(should_scan_node_modules(1_001, Some(&stored)));
    // The freshly computed summary replaces the stored one whole.
    let fresh = summary(1_001);
    let chosen = choose_node_modules_info(true, Some(fresh.clone()), Some(&stored));
    assert_eq!(chosen, Some(fresh));
}

#[test]
fn rescan_happens_without_a_stored_summary() {
    let stored = analyzed("/p");
    assert!(should_scan_node_modules(0, Some(&stored)));
    assert!(should_scan_node_modules(0, None));
}
