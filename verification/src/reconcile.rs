//! Reconciliation of freshly analyzed repository data with previously stored
//! state. Analysis output never carries user annotations, so merging must
//! copy the pin state from the stored record; and the expensive dependency-
//! directory rescan is skipped unless the manifest file is strictly newer
//! than what the stored summary observed.

use crate::repo_types::{GitRepository, GitRepositoryModel, NodeModulesInfo, NodeModulesInfoModel};
use vstd::prelude::*;

verus! {

/// The model of a record after the stored pin state has been copied onto it.
pub open spec fn merged_model(fresh: GitRepositoryModel, existing: GitRepositoryModel) -> GitRepositoryModel {
    GitRepositoryModel { is_pinned: existing.is_pinned, pinned_at: existing.pinned_at, ..fresh }
}

/// Copy the user annotations (pin flag and pin timestamp) of the previously
/// stored record onto a freshly analyzed one; everything the analysis
/// computed is kept. With no previously stored record, the fresh record is
/// returned unchanged.
pub fn merge_annotations(fresh: GitRepository, existing: Option<&GitRepository>) -> (r: GitRepository)
    ensures
        match existing {
            Some(e) => r@ == merged_model(fresh@, e@),
            None => r@ == fresh@,
        },
{
    match existing {
        Some(e) => {
            let mut merged = fresh;
            merged.is_pinned = e.is_pinned;
            merged.pinned_at = e.pinned_at;
            merged
        },
        None => fresh,
    }
}

/// When a dependency-directory rescan is due: always for a record without a
/// stored summary, else exactly when the manifest file was modified strictly
/// after the summary last observed it.
pub open spec fn rescan_needed(manifest_modified: i64, previous: Option<NodeModulesInfoModel>) -> bool {
    match previous {
        Some(i) => manifest_modified > i.package_json_modified,
        None => true,
    }
}

/// The stored dependency summary of a record, if any.
pub open spec fn stored_summary(existing: Option<GitRepositoryModel>) -> Option<NodeModulesInfoModel> {
    match existing {
        Some(e) => e.node_modules_info,
        None => None,
    }
}

/// Decide whether the dependency directories must be rescanned, given the
/// manifest file's current modification time. The caller settles beforehand
/// that a manifest file exists at all; without one there is nothing to scan.
pub fn should_scan_node_modules(manifest_modified: i64, existing: Option<&GitRepository>) -> (r: bool)
    ensures
        r == rescan_needed(
            manifest_modified,
            stored_summary(
                match existing {
                    Some(e) => Some(e@),
                    None => None,
                },
            ),
        ),
{
    match existing {
        Some(e) => match &e.node_modules_info {
            Some(i) => manifest_modified > i.package_json_modified,
            None => true,
        },
        None => true,
    }
}

/// Select the dependency summary for the reconciled record: the freshly
/// scanned one when a rescan was due, else the stored one carried forward
/// whole, never merged field by field.
pub fn choose_node_modules_info(
    rescan: bool,
    scanned: Option<NodeModulesInfo>,
    existing: Option<&GitRepository>,
) -> (r: Option<NodeModulesInfo>)
    ensures
        rescan ==> r.deep_view() == scanned.deep_view(),
        !rescan ==> r.deep_view() == (match existing {
            Some(e) => e@.node_modules_info,
            None => None,
        }),
{
    if rescan {
        scanned
    } else {
        match existing {
            Some(e) => match &e.node_modules_info {
                Some(i) => Some(i.duplicate()),
                None => None,
            },
            None => None,
        }
    }
}

/// Reconciliation preserves annotations: merging a fresh analysis of a pinned
/// record keeps `is_pinned` and `pinned_at` exactly as stored, and keeps all
/// the freshly computed metadata.
pub proof fn lemma_merge_preserves_annotations(
    fresh: GitRepositoryModel,
    existing: GitRepositoryModel,
)
    ensures
        merged_model(fresh, existing).is_pinned == existing.is_pinned,
        merged_model(fresh, existing).pinned_at == existing.pinned_at,
        merged_model(fresh, existing) == (GitRepositoryModel {
            is_pinned: existing.is_pinned,
            pinned_at: existing.pinned_at,
            ..fresh
        }),
{
}

/// The dependency-rescan rule: a manifest no newer than what the stored
/// summary observed leaves the summary untouched; a strictly newer manifest
/// forces a full recomputation, whose result replaces the summary whole.
pub proof fn lemma_rescan_skip_rule(
    manifest_modified: i64,
    stored: NodeModulesInfoModel,
    fresh: Option<NodeModulesInfoModel>,
)
    ensures
        manifest_modified <= stored.package_json_modified ==> !rescan_needed(
            manifest_modified,
            Some(stored),
        ),
        manifest_modified > stored.package_json_modified ==> rescan_needed(
            manifest_modified,
            Some(stored),
        ),
        rescan_needed(manifest_modified, None),
{
}

} // verus!
