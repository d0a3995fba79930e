//! The path trie and the secondary attribute indices, exercised on concrete
//! repositories.

use repo_store::repo_index::RepositoryIndex;
use repo_store::repo_types::GitRepository;

fn create_test_repo(name: &str, path: &str, size_mb: u64) -> GitRepository {
    GitRepository {
        name: name.to_string(),
        path: path.to_string(),
        size_mb,
        file_types: Vec::new(),
        last_commit_date: None,
        current_branch: None,
        branches: vec![],
        remote_url: None,
        commit_count: 10,
        last_analyzed: chrono::Utc::now().timestamp(),
        is_valid: true,
        is_pinned: false,
        pinned_at: None,
        node_modules_info: None,
    }
}

#[test]
fn test_path_trie_basic_operations() {
    let mut trie = repo_store::path_trie::PathTrie::new();

    trie.insert_repository("/home/user/project1");
    trie.insert_repository("/home/user/project2");
    trie.insert_repository("/home/user/subdir/project3");

    let repos_under_user = trie.find_repositories_under_path("/home/user");
    assert_eq!(repos_under_user.len(), 3);

    let repos_under_subdir = trie.find_repositories_under_path("/home/user/subdir");
    assert_eq!(repos_under_subdir.len(), 1);
    assert!(repos_under_subdir.contains(&"/home/user/subdir/project3".to_string()));
}

#[test]
fn test_repository_index() {
    let mut index = RepositoryIndex::new();
    let repo = create_test_repo("test-repo", "/path/to/repo", 150);

    index.insert_repository(&repo);

    let by_name = index.find_repositories_by_name_prefix("test");
    assert_eq!(by_name.len(), 1);
    assert_eq!(by_name[0], "/path/to/repo");

    let by_size = index.find_repositories_by_size_range(100, 200);
    assert_eq!(by_size.len(), 1);
}

#[test]
fn trie_matches_whole_segments_only() {
    let mut trie = repo_store::path_trie::PathTrie::new();
    trie.insert_repository("/home/user/project");

    // A raw string prefix that breaks a segment must not match.
    assert!(trie.find_repositories_under_path("/home/use").is_empty());
    let hits = trie.find_repositories_under_path("/home/user");
    assert_eq!(hits, vec!["/home/user/project".to_string()]);
}

#[test]
fn trie_remove_deletes_exactly_one_path() {
    let mut trie = repo_store::path_trie::PathTrie::new();
    trie.insert_repository("/a/b");
    trie.insert_repository("/a/c");
    trie.remove_repository("/a/b");
    let hits = trie.find_repositories_under_path("/a");
    assert_eq!(hits, vec!["/a/c".to_string()]);
    trie.clear();
    assert!(trie.find_repositories_under_path("/a").is_empty());
}

#[test]
fn index_insert_then_remove_restores_all_queries() {
    let mut index = RepositoryIndex::new();
    let mut repo = create_test_repo("alpha", "/r/alpha", 60);
    repo.file_types = vec![("rs".to_string(), 4), ("md".to_string(), 1)];
    repo.commit_count = 250;

    index.insert_repository(&repo);
    assert_eq!(index.find_repositories_by_name_prefix("al").len(), 1);
    assert_eq!(index.find_repositories_by_file_type("rs").len(), 1);
    assert_eq!(index.find_repositories_by_size_range(50, 99).len(), 1);

    index.remove_repository(&repo);
    assert!(index.find_repositories_by_name_prefix("al").is_empty());
    assert!(index.find_repositories_by_name_prefix("").is_empty());
    assert!(index.find_repositories_by_file_type("rs").is_empty());
    assert!(index.find_repositories_by_file_type("md").is_empty());
    assert!(index.find_repositories_by_size_range(0, 1000).is_empty());
}

#[test]
fn index_name_search_folds_case() {
    let mut index = RepositoryIndex::new();
    let repo = create_test_repo("MyProject", "/r/myproject", 10);
    index.insert_repository(&repo);

    // Stored names and queries are both lower-cased before matching.
    let hits = index.find_repositories_by_name_prefix("MYPRO");
    assert_eq!(hits, vec!["/r/myproject".to_string()]);
}

#[test]
fn index_size_range_walks_every_bucket() {
    let mut index = RepositoryIndex::new();
    index.insert_repository(&create_test_repo("a", "/r/a", 10));
    index.insert_repository(&create_test_repo("b", "/r/b", 70));
    index.insert_repository(&create_test_repo("c", "/r/c", 260));

    let hits = index.find_repositories_by_size_range(0, 100);
    assert_eq!(hits.len(), 2);
    assert!(hits.contains(&"/r/a".to_string()));
    assert!(hits.contains(&"/r/b".to_string()));
    assert_eq!(index.find_repositories_by_size_range(250, 260).len(), 1);
    assert!(index.find_repositories_by_size_range(300, 200).is_empty());
}

#[test]
fn trie_drops_empty_path_segments() {
    let mut trie = repo_store::path_trie::PathTrie::new();
    trie.insert_repository("/a//b/");
    // Repeated and trailing separators contribute no segments.
    let hits = trie.find_repositories_under_path("a/b");
    assert_eq!(hits, vec!["/a//b/".to_string()]);
}
