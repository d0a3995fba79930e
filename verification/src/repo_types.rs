//! Data model of the repository store: the records held in the canonical
//! cache document, the document itself, and the error taxonomy.
//!
//! Timestamps are unix epoch seconds (`i64`); directory sizes are whole
//! megabytes (`u64`). Every map of the cache document is represented as a
//! vector of entries whose keys are pairwise distinct, so that the whole
//! document is made of plain values that contracts can speak about.

use crate::assoc::Keyed;
use vstd::prelude::*;

verus! {

/// Why a store operation failed.
#[derive(Clone, Copy, Debug, PartialEq, Eq, Structural)]
pub enum StoreError {
    /// Reading or writing the cache file failed.
    IoError,
    /// No known schema version parses the on-disk document.
    SchemaError,
    /// A referenced repository, collection or scan root is absent.
    NotFound,
    /// A collection with the same name already exists.
    DuplicateName,
}

/// Cached summary of the package-manager dependency directories (for example
/// `node_modules`) found under a repository.
#[derive(Clone, Debug, PartialEq)]
pub struct NodeModulesInfo {
    /// Combined size of the dependency directories, in whole megabytes.
    pub total_size_mb: u64,
    /// How many dependency directories were found.
    pub count: u32,
    /// The dependency directories themselves.
    pub paths: Vec<String>,
    /// When the summary was computed.
    pub last_scanned: i64,
    /// Modification time of the manifest file (`package.json`) observed at
    /// scan time; a rescan happens only when the manifest is strictly newer.
    pub package_json_modified: i64,
}

/// One discovered version-controlled project directory.
#[derive(Clone, Debug, PartialEq)]
pub struct GitRepository {
    /// Display label, derived from the last path segment.
    pub name: String,
    /// Absolute filesystem path; the unique key of the record.
    pub path: String,
    /// Directory size in whole megabytes, excluding the VCS metadata directory.
    pub size_mb: u64,
    /// File extension -> number of files with that extension.
    pub file_types: Vec<(String, u32)>,
    pub last_commit_date: Option<i64>,
    pub current_branch: Option<String>,
    pub branches: Vec<String>,
    pub remote_url: Option<String>,
    /// Bounded to the first 1000 history entries.
    pub commit_count: u32,
    /// When the metadata was last extracted.
    pub last_analyzed: i64,
    /// Whether the path still resolves to a VCS directory.
    pub is_valid: bool,
    /// User annotation: pinned.
    pub is_pinned: bool,
    /// Set exactly when `is_pinned` becomes true, cleared when it becomes false.
    pub pinned_at: Option<i64>,
    pub node_modules_info: Option<NodeModulesInfo>,
}

/// A user-registered directory to rescan.
#[derive(Clone, Debug, PartialEq)]
pub struct ScanPath {
    pub path: String,
    pub last_scanned: Option<i64>,
    /// Count of known repositories whose path is prefixed by this root,
    /// recomputed whenever this root is written.
    pub repository_count: u64,
}

/// A user-defined named group of repositories.
#[derive(Clone, Debug, PartialEq)]
pub struct Collection {
    /// Opaque unique identifier.
    pub id: String,
    /// Unique among collections.
    pub name: String,
    /// Display hint; load-time migration fills a default when empty.
    pub color: String,
    /// Ordered membership list; duplicates forbidden.
    pub repository_paths: Vec<String>,
    pub created_at: i64,
}

/// Progress report emitted while a scan walks the filesystem.
#[derive(Clone, Debug, PartialEq)]
pub struct ScanProgress {
    pub current_path: String,
    pub repos_found: u32,
    pub completed: bool,
}

/// The persisted root document: the single source of truth from which every
/// auxiliary index is derivable.
#[derive(Clone, Debug, PartialEq)]
pub struct RepositoryCache {
    /// All known repositories, keyed by `path`.
    pub repositories: Vec<GitRepository>,
    /// All registered scan roots, keyed by `path`.
    pub scan_paths: Vec<ScanPath>,
    /// All collections, keyed by `id`.
    pub collections: Vec<Collection>,
    pub last_updated: i64,
    pub cache_version: String,
}

/// Diagnostic summary of the store.
#[derive(Clone, Debug, PartialEq)]
pub struct CacheInfo {
    pub total_repositories: u64,
    pub last_updated: i64,
    pub cache_file_size: u64,
    pub valid_repositories: u64,
    pub invalid_repositories: u64,
}

/// Mathematical model of a [`NodeModulesInfo`] value.
pub struct NodeModulesInfoModel {
    pub total_size_mb: u64,
    pub count: u32,
    pub paths: Seq<Seq<char>>,
    pub last_scanned: i64,
    pub package_json_modified: i64,
}

/// Mathematical model of a [`GitRepository`] record.
pub struct GitRepositoryModel {
    pub name: Seq<char>,
    pub path: Seq<char>,
    pub size_mb: u64,
    pub file_types: Seq<(Seq<char>, u32)>,
    pub last_commit_date: Option<i64>,
    pub current_branch: Option<Seq<char>>,
    pub branches: Seq<Seq<char>>,
    pub remote_url: Option<Seq<char>>,
    pub commit_count: u32,
    pub last_analyzed: i64,
    pub is_valid: bool,
    pub is_pinned: bool,
    pub pinned_at: Option<i64>,
    pub node_modules_info: Option<NodeModulesInfoModel>,
}

/// Mathematical model of a [`ScanPath`] value.
pub struct ScanPathModel {
    pub path: Seq<char>,
    pub last_scanned: Option<i64>,
    pub repository_count: u64,
}

/// Mathematical model of a [`Collection`] value.
pub struct CollectionModel {
    pub id: Seq<char>,
    pub name: Seq<char>,
    pub color: Seq<char>,
    pub repository_paths: Seq<Seq<char>>,
    pub created_at: i64,
}

/// Mathematical model of a whole [`RepositoryCache`] document.
pub struct RepositoryCacheModel {
    pub repositories: Seq<GitRepositoryModel>,
    pub scan_paths: Seq<ScanPathModel>,
    pub collections: Seq<CollectionModel>,
    pub last_updated: i64,
    pub cache_version: Seq<char>,
}

impl DeepView for NodeModulesInfo {
    type V = NodeModulesInfoModel;

    open spec fn deep_view(&self) -> NodeModulesInfoModel {
        self.view()
    }
}

impl View for NodeModulesInfo {
    type V = NodeModulesInfoModel;

    open spec fn view(&self) -> NodeModulesInfoModel {
        NodeModulesInfoModel {
            total_size_mb: self.total_size_mb,
            count: self.count,
            paths: self.paths.deep_view(),
            last_scanned: self.last_scanned,
            package_json_modified: self.package_json_modified,
        }
    }
}

impl DeepView for GitRepository {
    type V = GitRepositoryModel;

    open spec fn deep_view(&self) -> GitRepositoryModel {
        self.view()
    }
}

impl View for GitRepository {
    type V = GitRepositoryModel;

    open spec fn view(&self) -> GitRepositoryModel {
        GitRepositoryModel {
            name: self.name@,
            path: self.path@,
            size_mb: self.size_mb,
            file_types: self.file_types@.map_values(|e: (String, u32)| (e.0@, e.1)),
            last_commit_date: self.last_commit_date,
            current_branch: self.current_branch.deep_view(),
            branches: self.branches.deep_view(),
            remote_url: self.remote_url.deep_view(),
            commit_count: self.commit_count,
            last_analyzed: self.last_analyzed,
            is_valid: self.is_valid,
            is_pinned: self.is_pinned,
            pinned_at: self.pinned_at,
            node_modules_info: match self.node_modules_info {
                Some(i) => Some(i@),
                None => None,
            },
        }
    }
}

impl DeepView for ScanPath {
    type V = ScanPathModel;

    open spec fn deep_view(&self) -> ScanPathModel {
        self.view()
    }
}

impl View for ScanPath {
    type V = ScanPathModel;

    open spec fn view(&self) -> ScanPathModel {
        ScanPathModel {
            path: self.path@,
            last_scanned: self.last_scanned,
            repository_count: self.repository_count,
        }
    }
}

impl DeepView for Collection {
    type V = CollectionModel;

    open spec fn deep_view(&self) -> CollectionModel {
        self.view()
    }
}

impl View for Collection {
    type V = CollectionModel;

    open spec fn view(&self) -> CollectionModel {
        CollectionModel {
            id: self.id@,
            name: self.name@,
            color: self.color@,
            repository_paths: self.repository_paths.deep_view(),
            created_at: self.created_at,
        }
    }
}

impl DeepView for RepositoryCache {
    type V = RepositoryCacheModel;

    open spec fn deep_view(&self) -> RepositoryCacheModel {
        self.view()
    }
}

impl View for RepositoryCache {
    type V = RepositoryCacheModel;

    open spec fn view(&self) -> RepositoryCacheModel {
        RepositoryCacheModel {
            repositories: self.repositories@.map_values(|r: GitRepository| r@),
            scan_paths: self.scan_paths@.map_values(|r: ScanPath| r@),
            collections: self.collections@.map_values(|c: Collection| c@),
            last_updated: self.last_updated,
            cache_version: self.cache_version@,
        }
    }
}

impl Keyed for GitRepository {
    type SpecKey = Seq<char>;

    type ExecKey = String;

    open spec fn key(&self) -> Seq<char> {
        self.path@
    }

    open spec fn ekey(k: &String) -> Seq<char> {
        k@
    }

    fn key_is(&self, k: &String) -> (r: bool) {
        self.path.eq(k)
    }
}

impl Keyed for ScanPath {
    type SpecKey = Seq<char>;

    type ExecKey = String;

    open spec fn key(&self) -> Seq<char> {
        self.path@
    }

    open spec fn ekey(k: &String) -> Seq<char> {
        k@
    }

    fn key_is(&self, k: &String) -> (r: bool) {
        self.path.eq(k)
    }
}

impl Keyed for Collection {
    type SpecKey = Seq<char>;

    type ExecKey = String;

    open spec fn key(&self) -> Seq<char> {
        self.id@
    }

    open spec fn ekey(k: &String) -> Seq<char> {
        k@
    }

    fn key_is(&self, k: &String) -> (r: bool) {
        self.id.eq(k)
    }
}

impl GitRepository {
    /// Internal consistency of one record: extension keys are pairwise
    /// distinct, and an unpinned record carries no pin timestamp.
    pub open spec fn wf(self) -> bool {
        &&& forall|i: int, j: int|
            0 <= i < j < self.file_types@.len() ==> self.file_types@[i].0@
                != self.file_types@[j].0@
        &&& !self.is_pinned ==> self.pinned_at is None
    }
}

impl RepositoryCache {
    /// Well-formedness of the whole document: each map's keys are pairwise
    /// distinct and every record is internally consistent.
    pub open spec fn wf(self) -> bool {
        &&& crate::assoc::unique_keys(self.repositories@)
        &&& crate::assoc::unique_keys(self.scan_paths@)
        &&& crate::assoc::unique_keys(self.collections@)
        &&& forall|i: int| 0 <= i < self.repositories@.len() ==> (#[trigger] self.repositories@[i]).wf()
    }

    /// The repositories as a finite map, keyed by path.
    pub open spec fn repos(self) -> Map<Seq<char>, GitRepository> {
        crate::assoc::kmap(self.repositories@)
    }

    /// The scan roots as a finite map, keyed by path.
    pub open spec fn roots(self) -> Map<Seq<char>, ScanPath> {
        crate::assoc::kmap(self.scan_paths@)
    }

    /// The collections as a finite map, keyed by id.
    pub open spec fn colls(self) -> Map<Seq<char>, Collection> {
        crate::assoc::kmap(self.collections@)
    }

    /// The current schema version string.
    pub open spec fn spec_current_version() -> Seq<char> {
        "1.4"@
    }

    /// A fresh, empty document at the current schema version.
    pub fn empty(now: i64) -> (r: RepositoryCache)
        ensures
            r.repositories@ == Seq::<GitRepository>::empty(),
            r.scan_paths@ == Seq::<ScanPath>::empty(),
            r.collections@ == Seq::<Collection>::empty(),
            r.last_updated == now,
            r.cache_version@ == Self::spec_current_version(),
            r.wf(),
    {
        RepositoryCache {
            repositories: Vec::new(),
            scan_paths: Vec::new(),
            collections: Vec::new(),
            last_updated: now,
            cache_version: current_version(),
        }
    }
}

/// Copy a vector of strings; the copy reads the same.
pub fn clone_string_vec(v: &Vec<String>) -> (r: Vec<String>)
    ensures
        r.deep_view() == v.deep_view(),
{
    let mut r: Vec<String> = Vec::new();
    let mut i: usize = 0;
    while i < v.len()
        invariant
            i <= v@.len(),
            r@.len() == i,
            forall|j: int| 0 <= j < i ==> (#[trigger] r@[j])@ == v@[j]@,
        decreases v@.len() - i,
    {
        r.push(v[i].clone());
        i += 1;
    }
    proof {
        assert(r.deep_view() =~= v.deep_view()) by {
            assert forall|j: int| 0 <= j < r@.len() implies r.deep_view()[j] == v.deep_view()[j] by {
                assert(r.deep_view()[j] == r@[j]@);
                assert(v.deep_view()[j] == v@[j]@);
                assert(r@[j]@ == v@[j]@);
            }
        }
    }
    r
}

/// Copy an optional string; the copy reads the same.
pub fn clone_opt_string(o: &Option<String>) -> (r: Option<String>)
    ensures
        r.deep_view() == o.deep_view(),
{
    match o {
        Some(s) => Some(s.clone()),
        None => None,
    }
}

/// Copy an extension-count table; the copy reads the same.
pub fn clone_file_types(v: &Vec<(String, u32)>) -> (r: Vec<(String, u32)>)
    ensures
        r@.map_values(|e: (String, u32)| (e.0@, e.1)) == v@.map_values(
            |e: (String, u32)| (e.0@, e.1),
        ),
{
    let mut r: Vec<(String, u32)> = Vec::new();
    let mut i: usize = 0;
    while i < v.len()
        invariant
            i <= v@.len(),
            r@.len() == i,
            forall|j: int|
                0 <= j < i ==> (#[trigger] r@[j]).0@ == v@[j].0@ && r@[j].1 == v@[j].1,
        decreases v@.len() - i,
    {
        let name = v[i].0.clone();
        let count = v[i].1;
        r.push((name, count));
        i += 1;
    }
    proof {
        let f = |e: (String, u32)| (e.0@, e.1);
        assert(r@.map_values(f) =~= v@.map_values(f)) by {
            assert forall|j: int|
                0 <= j < r@.len() implies r@.map_values(f)[j] == v@.map_values(f)[j] by {
                assert(r@.map_values(f)[j] == f(r@[j]));
                assert(v@.map_values(f)[j] == f(v@[j]));
            }
        }
    }
    r
}

impl NodeModulesInfo {
    /// Copy the summary; the copy has the same model.
    pub fn duplicate(&self) -> (r: NodeModulesInfo)
        ensures
            r@ == self@,
    {
        NodeModulesInfo {
            total_size_mb: self.total_size_mb,
            count: self.count,
            paths: clone_string_vec(&self.paths),
            last_scanned: self.last_scanned,
            package_json_modified: self.package_json_modified,
        }
    }
}

impl GitRepository {
    /// Copy the record; the copy has the same model.
    pub fn duplicate(&self) -> (r: GitRepository)
        ensures
            r@ == self@,
    {
        GitRepository {
            name: self.name.clone(),
            path: self.path.clone(),
            size_mb: self.size_mb,
            file_types: clone_file_types(&self.file_types),
            last_commit_date: self.last_commit_date,
            current_branch: clone_opt_string(&self.current_branch),
            branches: clone_string_vec(&self.branches),
            remote_url: clone_opt_string(&self.remote_url),
            commit_count: self.commit_count,
            last_analyzed: self.last_analyzed,
            is_valid: self.is_valid,
            is_pinned: self.is_pinned,
            pinned_at: self.pinned_at,
            node_modules_info: match &self.node_modules_info {
                Some(i) => Some(i.duplicate()),
                None => None,
            },
        }
    }
}

impl ScanPath {
    /// Copy the scan root; the copy has the same model.
    pub fn duplicate(&self) -> (r: ScanPath)
        ensures
            r@ == self@,
    {
        ScanPath {
            path: self.path.clone(),
            last_scanned: self.last_scanned,
            repository_count: self.repository_count,
        }
    }
}

impl Collection {
    /// Copy the collection; the copy has the same model.
    pub fn duplicate(&self) -> (r: Collection)
        ensures
            r@ == self@,
    {
        Collection {
            id: self.id.clone(),
            name: self.name.clone(),
            color: self.color.clone(),
            repository_paths: clone_string_vec(&self.repository_paths),
            created_at: self.created_at,
        }
    }
}

/// Internal consistency depends only on a record's model: a copy with the
/// same model is as well-formed as the original.
pub proof fn lemma_wf_view(r1: GitRepository, r2: GitRepository)
    requires
        r1@ == r2@,
        r1.wf(),
    ensures
        r2.wf(),
{
    assert(r1.file_types@.len() == r2.file_types@.len()) by {
        assert(r1@.file_types.len() == r1.file_types@.len());
        assert(r2@.file_types.len() == r2.file_types@.len());
    }
    assert forall|i: int, j: int|
        0 <= i < j < r2.file_types@.len() implies r2.file_types@[i].0@ != r2.file_types@[j].0@ by {
        assert(r1@.file_types[i] == (r1.file_types@[i].0@, r1.file_types@[i].1));
        assert(r1@.file_types[j] == (r1.file_types@[j].0@, r1.file_types@[j].1));
        assert(r2@.file_types[i] == (r2.file_types@[i].0@, r2.file_types@[i].1));
        assert(r2@.file_types[j] == (r2.file_types@[j].0@, r2.file_types@[j].1));
    }
}

/// Every record the document holds is internally consistent and sits at its
/// own path.
pub proof fn lemma_repos_value_wf(c: RepositoryCache, k: Seq<char>)
    requires
        c.wf(),
        c.repos().contains_key(k),
    ensures
        c.repos()[k].wf(),
        c.repos()[k].path@ == k,
{
    crate::assoc::lemma_kmap_contains(c.repositories@, k);
    let i = choose|i: int| 0 <= i < c.repositories@.len() && c.repositories@[i].path@ == k;
    crate::assoc::lemma_kmap_index(c.repositories@, i);
}

/// Well-formedness depends only on the document's model: two documents with
/// the same model are equally well-formed.
pub proof fn lemma_wf_same_model(d1: RepositoryCache, d2: RepositoryCache)
    requires
        d1@ == d2@,
        d1.wf(),
    ensures
        d2.wf(),
{
    assert(d1.repositories@.len() == d2.repositories@.len()) by {
        assert(d1@.repositories.len() == d1.repositories@.len());
        assert(d2@.repositories.len() == d2.repositories@.len());
    }
    assert(d1.scan_paths@.len() == d2.scan_paths@.len()) by {
        assert(d1@.scan_paths.len() == d1.scan_paths@.len());
        assert(d2@.scan_paths.len() == d2.scan_paths@.len());
    }
    assert(d1.collections@.len() == d2.collections@.len()) by {
        assert(d1@.collections.len() == d1.collections@.len());
        assert(d2@.collections.len() == d2.collections@.len());
    }
    assert forall|i: int, j: int|
        0 <= i < j < d2.repositories@.len() implies d2.repositories@[i].path@
        != d2.repositories@[j].path@ by {
        assert(d1@.repositories[i].path == d1.repositories@[i].path@);
        assert(d1@.repositories[j].path == d1.repositories@[j].path@);
        assert(d2@.repositories[i].path == d2.repositories@[i].path@);
        assert(d2@.repositories[j].path == d2.repositories@[j].path@);
    }
    assert forall|i: int, j: int|
        0 <= i < j < d2.scan_paths@.len() implies d2.scan_paths@[i].path@
        != d2.scan_paths@[j].path@ by {
        assert(d1@.scan_paths[i].path == d1.scan_paths@[i].path@);
        assert(d1@.scan_paths[j].path == d1.scan_paths@[j].path@);
        assert(d2@.scan_paths[i].path == d2.scan_paths@[i].path@);
        assert(d2@.scan_paths[j].path == d2.scan_paths@[j].path@);
    }
    assert forall|i: int, j: int|
        0 <= i < j < d2.collections@.len() implies d2.collections@[i].id@
        != d2.collections@[j].id@ by {
        assert(d1@.collections[i].id == d1.collections@[i].id@);
        assert(d1@.collections[j].id == d1.collections@[j].id@);
        assert(d2@.collections[i].id == d2.collections@[i].id@);
        assert(d2@.collections[j].id == d2.collections@[j].id@);
    }
    assert forall|i: int|
        0 <= i < d2.repositories@.len() implies (#[trigger] d2.repositories@[i]).wf() by {
        assert(d1@.repositories[i] == d1.repositories@[i]@);
        assert(d2@.repositories[i] == d2.repositories@[i]@);
        lemma_wf_view(d1.repositories@[i], d2.repositories@[i]);
    }
}

/// The schema version written by this build of the store.
pub fn current_version() -> (r: String)
    ensures
        r@ == RepositoryCache::spec_current_version(),
{
    let v = "1.4";
    v.to_owned()
}

} // verus!
