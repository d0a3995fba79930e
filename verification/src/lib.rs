//! A verified repository metadata store: a canonical cache document of
//! discovered version-controlled project directories, a binary on-disk codec
//! with schema migration, and auxiliary lookup structures (a path trie, a
//! bounded recency cache and secondary attribute indices) that are kept
//! consistent with the canonical document.

pub mod assoc;
pub mod codec;
pub mod data_store;
pub mod path_trie;
pub mod paths;
pub mod recency;
pub mod reconcile;
pub mod repo_index;
pub mod repo_types;
