//! The canonical store: the single source of truth for the cache document,
//! together with the derived lookup structures (path trie, recency cache and
//! secondary indices) that every mutation keeps consistent with it. The
//! document lives in memory; reading and writing its file is the caller's
//! business, through the codec.

use crate::assoc::{kfind, kget, kremove, kupsert, unique_keys};
use crate::path_trie::{path_segs, PathTrie};
use crate::recency::{lru_clear, lru_contents, lru_get, lru_len, lru_pop, lru_put};
use crate::repo_index::RepositoryIndex;
use crate::repo_types::{
    CacheInfo, Collection, GitRepository, GitRepositoryModel, RepositoryCache, ScanPath,
    StoreError,
};
use vstd::prelude::*;

verus! {

/// How many records the recency cache keeps.
pub const LRU_CAPACITY: usize = 1000;

/// The store handle: the canonical document and its derived indices, owned
/// together so that every mutation updates them in one logical step.
pub struct DataStore {
    cache: RepositoryCache,
    cache_file_path: String,
    path_trie: PathTrie,
    lru_cache: crate::recency::RepositoryCache,
    repo_index: RepositoryIndex,
}

impl DataStore {
    /// The canonical document.
    pub closed spec fn doc(self) -> RepositoryCache {
        self.cache
    }

    /// The repositories of the document, as a map keyed by path.
    pub open spec fn repos(self) -> Map<Seq<char>, GitRepository> {
        self.doc().repos()
    }

    /// The scan roots of the document, as a map keyed by path.
    pub open spec fn roots(self) -> Map<Seq<char>, ScanPath> {
        self.doc().roots()
    }

    /// The collections of the document, as a map keyed by id.
    pub open spec fn colls(self) -> Map<Seq<char>, Collection> {
        self.doc().colls()
    }

    /// The repository records in document order, as models.
    pub open spec fn repo_models(self) -> Seq<GitRepositoryModel> {
        self.doc().repositories.deep_view()
    }

    /// When the document was last written.
    pub open spec fn last_updated(self) -> i64 {
        self.doc().last_updated
    }

    /// The secondary attribute indices.
    pub closed spec fn index(self) -> RepositoryIndex {
        self.repo_index
    }

    /// Whether the path trie holds path `p`.
    pub closed spec fn trie_has(self, p: Seq<char>) -> bool {
        self.path_trie.has_path(p)
    }

    /// What the recency cache holds.
    pub closed spec fn lru_view(self) -> Map<Seq<char>, GitRepository> {
        lru_contents(self.lru_cache)
    }

    /// The recency cache never disagrees with the canonical document: every
    /// cached record is the document's record at that path.
    pub open spec fn lru_ok(self) -> bool {
        forall|k: Seq<char>|
            #[trigger] self.lru_view().contains_key(k) ==> self.repos().contains_key(k)
                && self.lru_view()[k]@ == self.repos()[k]@
    }

    /// Joint consistency: the document is well-formed, the trie holds exactly
    /// the document's repository paths, the indices keep their own structure,
    /// and the recency cache agrees with the document.
    pub open spec fn inv(self) -> bool {
        &&& self.doc().wf()
        &&& self.trie_wf()
        &&& forall|p: Seq<char>| self.trie_has(p) <==> self.repos().contains_key(p)
        &&& self.index().inv()
        &&& self.lru_ok()
    }

    /// The trie's own structural invariant.
    pub closed spec fn trie_wf(self) -> bool {
        self.path_trie.wf()
    }

    /// Build a store handle around a loaded document. The derived structures
    /// are built from the document; the file path is kept for diagnostics.
    pub fn new(cache: RepositoryCache, cache_file_path: String) -> (r: DataStore)
        requires
            cache.wf(),
        ensures
            r.inv(),
            r.doc() == cache,
            r.cache_file_path_view() == cache_file_path@,
    {
        let mut store = DataStore {
            cache,
            cache_file_path,
            path_trie: PathTrie::new(),
            lru_cache: crate::recency::create_repository_cache(LRU_CAPACITY),
            repo_index: RepositoryIndex::new(),
        };
        store.rebuild_optimizations();
        store
    }

    /// The file the document is persisted in.
    pub closed spec fn cache_file_path_view(self) -> Seq<char> {
        self.cache_file_path@
    }

    /// That file's path, for diagnostics.
    pub fn get_cache_file_path_string(&self) -> (r: String)
        ensures
            r@ == self.cache_file_path_view(),
    {
        self.cache_file_path.clone()
    }

    /// Rebuild the path trie and the secondary indices from the canonical
    /// document, and proactively cache every pinned record, because pinned
    /// records are disproportionately likely to be re-read.
    #[verifier::loop_isolation(false)]
    pub fn rebuild_optimizations(&mut self)
        requires
            old(self).doc().wf(),
            old(self).lru_ok(),
        ensures
            final(self).inv(),
            final(self).doc() == old(self).doc(),
            final(self).cache_file_path_view() == old(self).cache_file_path_view(),
    {
        self.path_trie.clear();
        self.repo_index.clear();
        let ghost docseq = self.cache.repositories@;
        proof {
            assert(self.lru_ok()) by {
                assert forall|k: Seq<char>|
                    #[trigger] self.lru_view().contains_key(k) implies self.repos().contains_key(
                    k,
                ) && self.lru_view()[k]@ == self.repos()[k]@ by {
                    assert(old(self).lru_view().contains_key(k));
                }
            }
        }
        let n = self.cache.repositories.len();
        let mut i: usize = 0;
        while i < n
            invariant
                i <= docseq.len(),
                n == docseq.len(),
                self.cache == old(self).cache,
                self.cache_file_path@ == old(self).cache_file_path@,
                self.path_trie.wf(),
                forall|p: Seq<char>|
                    self.path_trie.has_path(p) <==> exists|j: int|
                        0 <= j < i && docseq[j].path@ == p,
                self.repo_index.inv(),
                self.lru_ok(),
            decreases docseq.len() - i,
        {
            proof {
                assert(docseq[i as int].wf());
                assert(!self.path_trie.has_path(docseq[i as int].path@)) by {
                    if exists|j: int| 0 <= j < i && docseq[j].path@ == docseq[i as int].path@ {
                        let j = choose|j: int|
                            0 <= j < i && docseq[j].path@ == docseq[i as int].path@;
                    }
                }
            }
            let ghost iter0 = *self;
            proof {
                assert(iter0.lru_ok());
            }
            let rec = &self.cache.repositories[i];
            self.path_trie.insert_repository(rec.path.as_str());
            self.repo_index.insert_repository(rec);
            if rec.is_pinned {
                let copy = rec.duplicate();
                let key = rec.path.clone();
                let ghost pre = *self;
                proof {
                    assert(pre.lru_view() == iter0.lru_view());
                    crate::assoc::lemma_kmap_index(docseq, i as int);
                }
                lru_put(&mut self.lru_cache, key, copy);
                proof {
                    assert(self.lru_ok()) by {
                        assert forall|k: Seq<char>|
                            #[trigger] self.lru_view().contains_key(k) implies self.repos(
                        ).contains_key(k) && self.lru_view()[k]@ == self.repos()[k]@ by {
                            if k == key@ {
                                assert(self.lru_view()[k] == copy);
                                assert(self.repos()[k] == docseq[i as int]);
                            } else {
                                assert(iter0.lru_view().contains_key(k));
                                assert(iter0.repos().contains_key(k));
                            }
                        }
                    }
                }
            } else {
                proof {
                    assert(self.lru_ok()) by {
                        assert forall|k: Seq<char>|
                            #[trigger] self.lru_view().contains_key(k) implies self.repos(
                        ).contains_key(k) && self.lru_view()[k]@ == self.repos()[k]@ by {
                            assert(iter0.lru_view().contains_key(k));
                            assert(iter0.repos().contains_key(k));
                        }
                    }
                }
            }
            i += 1;
        }
        proof {
            assert forall|p: Seq<char>|
                self.path_trie.has_path(p) <==> self.repos().contains_key(p) by {
                crate::assoc::lemma_kmap_contains(docseq, p);
            }
        }
    }

    /// Insert a record, or fully replace the one carrying the same path;
    /// every derived structure is updated in the same step. The document's
    /// `last_updated` becomes `now`.
    pub fn add_repository(&mut self, repo: GitRepository, now: i64)
        requires
            old(self).inv(),
            repo.wf(),
        ensures
            final(self).inv(),
            final(self).repos() == old(self).repos().insert(repo.path@, repo),
            final(self).roots() == old(self).roots(),
            final(self).colls() == old(self).colls(),
            final(self).last_updated() == now,
            final(self).doc().cache_version == old(self).doc().cache_version,
            final(self).cache_file_path_view() == old(self).cache_file_path_view(),
            if old(self).repos().contains_key(repo.path@) {
                exists|mid: RepositoryIndex|
                    RepositoryIndex::remove_transforms(
                        old(self).index(),
                        mid,
                        old(self).repos()[repo.path@]@,
                    ) && RepositoryIndex::insert_transforms(mid, final(self).index(), repo@)
            } else {
                RepositoryIndex::insert_transforms(old(self).index(), final(self).index(), repo@)
            },
    {
        let path_key = repo.path.clone();
        let existing = match kget(&self.cache.repositories, &path_key) {
            Some(rec) => Some(rec.duplicate()),
            None => None,
        };
        match &existing {
            Some(old_rec) => {
                proof {
                    crate::repo_types::lemma_repos_value_wf(self.cache, repo.path@);
                    crate::repo_types::lemma_wf_view(
                        old(self).repos()[repo.path@],
                        *old_rec,
                    );
                }
                self.repo_index.remove_repository(old_rec);
            },
            None => {
                proof {
                    assert(!old(self).trie_has(repo.path@));
                }
                self.path_trie.insert_repository(self.trie_key(&repo).as_str());
            },
        }
        let ghost mid_index = self.repo_index;
        self.repo_index.insert_repository(&repo);
        let cached = repo.duplicate();
        let ghost pre_lru = lru_contents(self.lru_cache);
        lru_put(&mut self.lru_cache, repo.path.clone(), cached);
        kupsert(&mut self.cache.repositories, &path_key, repo);
        self.cache.last_updated = now;
        proof {
            let post = *self;
            let pre = *old(self);
            assert(post.repos() == pre.repos().insert(repo.path@, repo));
            if pre.repos().contains_key(repo.path@) {
                assert(RepositoryIndex::remove_transforms(
                    pre.index(),
                    mid_index,
                    pre.repos()[repo.path@]@,
                ));
                assert(RepositoryIndex::insert_transforms(mid_index, post.index(), repo@));
            } else {
                assert(mid_index == pre.index());
            }
            // The document stays well-formed: the untouched records were
            // already there, and the inserted one is well-formed.
            assert(post.doc().wf()) by {
                assert forall|i: int|
                    0 <= i < post.cache.repositories@.len() implies (
                #[trigger] post.cache.repositories@[i]).wf() by {
                    if post.cache.repositories@[i] != repo {
                        assert(pre.cache.repositories@.contains(post.cache.repositories@[i]));
                        let j = choose|j: int|
                            0 <= j < pre.cache.repositories@.len() && pre.cache.repositories@[j]
                                == post.cache.repositories@[i];
                    }
                }
            }
            // The trie keeps holding exactly the document's paths.
            assert forall|p: Seq<char>|
                post.trie_has(p) <==> post.repos().contains_key(p) by {
                assert(pre.trie_has(p) <==> pre.repos().contains_key(p));
                if existing is Some {
                    assert(pre.repos().contains_key(repo.path@));
                    assert(post.path_trie == pre.path_trie);
                    assert(post.repos().dom() =~= pre.repos().dom());
                } else {
                    assert(!pre.repos().contains_key(repo.path@));
                    assert(post.trie_has(p) <==> pre.trie_has(p) || p == repo.path@);
                }
            }
            // The recency cache keeps agreeing with the document.
            assert(post.lru_ok()) by {
                assert forall|k: Seq<char>|
                    #[trigger] post.lru_view().contains_key(k) implies post.repos().contains_key(
                    k,
                ) && post.lru_view()[k]@ == post.repos()[k]@ by {
                    if k == repo.path@ {
                        assert(post.lru_view()[k] == cached);
                    } else {
                        assert(pre_lru.contains_key(k));
                        assert(pre.lru_view().contains_key(k));
                    }
                }
            }
        }
    }

    /// The record's path, borrowed for the trie.
    fn trie_key<'a>(&self, repo: &'a GitRepository) -> (r: &'a String)
        ensures
            r@ == repo.path@,
    {
        &repo.path
    }

    /// Remove the record at `repo_path` from the document and from every
    /// derived structure. Collections are not cascaded into: a dangling
    /// member path is filtered out when the collection is read, never eagerly
    /// deleted. Absent paths change nothing but `last_updated`.
    pub fn remove_repository_optimized(&mut self, repo_path: &str, now: i64)
        requires
            old(self).inv(),
        ensures
            final(self).inv(),
            final(self).repos() == old(self).repos().remove(repo_path@),
            final(self).roots() == old(self).roots(),
            final(self).colls() == old(self).colls(),
            final(self).last_updated() == now,
            final(self).doc().cache_version == old(self).doc().cache_version,
            final(self).cache_file_path_view() == old(self).cache_file_path_view(),
            if old(self).repos().contains_key(repo_path@) {
                RepositoryIndex::remove_transforms(
                    old(self).index(),
                    final(self).index(),
                    old(self).repos()[repo_path@]@,
                )
            } else {
                final(self).index() == old(self).index()
            },
    {
        let owned: String = repo_path.to_owned();
        let ghost pre = *old(self);
        let removed = kremove(&mut self.cache.repositories, &owned);
        match &removed {
            Some(old_rec) => {
                proof {
                    crate::repo_types::lemma_repos_value_wf(pre.cache, repo_path@);
                    assert(*old_rec == pre.repos()[repo_path@]);
                }
                self.repo_index.remove_repository(old_rec);
            },
            None => {},
        }
        self.path_trie.remove_repository(repo_path);
        let ghost pre_lru = lru_contents(self.lru_cache);
        lru_pop(&mut self.lru_cache, &owned);
        self.cache.last_updated = now;
        proof {
            let post = *self;
            assert(post.repos() == pre.repos().remove(repo_path@));
            assert(post.doc().wf()) by {
                assert forall|i: int|
                    0 <= i < post.cache.repositories@.len() implies (
                #[trigger] post.cache.repositories@[i]).wf() by {
                    assert(pre.cache.repositories@.contains(post.cache.repositories@[i]));
                    let j = choose|j: int|
                        0 <= j < pre.cache.repositories@.len() && pre.cache.repositories@[j]
                            == post.cache.repositories@[i];
                }
            }
            assert forall|p: Seq<char>|
                post.trie_has(p) <==> post.repos().contains_key(p) by {
                assert(pre.trie_has(p) <==> pre.repos().contains_key(p));
                assert(post.trie_has(p) <==> pre.trie_has(p) && p != repo_path@);
            }
            assert(post.lru_ok()) by {
                assert forall|k: Seq<char>|
                    #[trigger] post.lru_view().contains_key(k) implies post.repos().contains_key(
                    k,
                ) && post.lru_view()[k]@ == post.repos()[k]@ by {
                    assert(pre_lru.contains_key(k));
                    assert(pre.lru_view().contains_key(k));
                }
            }
        }
    }
}

/// A record as pin toggling leaves it: the flag flipped; the pin timestamp
/// set to the toggle time on pinning, cleared on unpinning.
pub open spec fn toggle_model(m: GitRepositoryModel, now: i64) -> GitRepositoryModel {
    GitRepositoryModel {
        is_pinned: !m.is_pinned,
        pinned_at: if !m.is_pinned {
            Some(now)
        } else {
            None
        },
        ..m
    }
}

/// Toggling twice always restores the pin flag itself.
pub proof fn lemma_toggle_twice_flag(m: GitRepositoryModel, t1: i64, t2: i64)
    ensures
        toggle_model(toggle_model(m, t1), t2).is_pinned == m.is_pinned,
{
}

/// Pin idempotence: toggling twice returns a record that was not pinned to
/// exactly its original state, pin timestamp included. (A record already
/// pinned regains its flag, but its pin timestamp becomes the second toggle
/// time.)
pub proof fn lemma_toggle_pin_idempotent(m: GitRepositoryModel, t1: i64, t2: i64)
    requires
        !m.is_pinned,
        m.pinned_at is None,
    ensures
        toggle_model(toggle_model(m, t1), t2) == m,
{
}

/// Whether the model is a pinned record.
pub open spec fn pinned_pred() -> spec_fn(GitRepositoryModel) -> bool {
    |m: GitRepositoryModel| m.is_pinned
}

/// Whether the record's path begins with the scan root `pre`.
pub open spec fn root_pred(pre: Seq<char>) -> spec_fn(GitRepositoryModel) -> bool {
    |m: GitRepositoryModel| crate::paths::str_prefix(pre, m.path)
}

impl DataStore {
    /// Persist a fresh, empty document in place of everything: all records,
    /// scan roots and collections are gone, and every derived structure is
    /// emptied with them.
    pub fn clear_cache(&mut self, now: i64)
        ensures
            final(self).inv(),
            final(self).repos() == Map::<Seq<char>, GitRepository>::empty(),
            final(self).roots() == Map::<Seq<char>, ScanPath>::empty(),
            final(self).colls() == Map::<Seq<char>, Collection>::empty(),
            final(self).last_updated() == now,
            final(self).doc().cache_version@ == RepositoryCache::spec_current_version(),
            final(self).cache_file_path_view() == old(self).cache_file_path_view(),
    {
        self.cache = RepositoryCache::empty(now);
        self.path_trie.clear();
        self.repo_index.clear();
        lru_clear(&mut self.lru_cache);
    }

    /// Flip the pin annotation of the record at `repo_path`: pinning stamps
    /// `pinned_at` with `now`, unpinning clears it. Returns the updated
    /// record, or `NotFound`, leaving the store untouched, when no record
    /// carries that path.
    pub fn toggle_repository_pin(&mut self, repo_path: &str, now: i64) -> (r: Result<
        GitRepository,
        StoreError,
    >)
        requires
            old(self).inv(),
        ensures
            final(self).inv(),
            old(self).repos().contains_key(repo_path@) ==> {
                &&& r matches Ok(rec) && rec@ == toggle_model(
                    old(self).repos()[repo_path@]@,
                    now,
                )
                &&& final(self).repos() == old(self).repos().insert(
                    repo_path@,
                    final(self).repos()[repo_path@],
                )
                &&& final(self).repos()[repo_path@]@ == toggle_model(
                    old(self).repos()[repo_path@]@,
                    now,
                )
                &&& final(self).roots() == old(self).roots()
                &&& final(self).colls() == old(self).colls()
                &&& final(self).last_updated() == now
                &&& final(self).doc().cache_version == old(self).doc().cache_version
                &&& final(self).index() == old(self).index()
            },
            !old(self).repos().contains_key(repo_path@) ==> r == Err::<
                GitRepository,
                StoreError,
            >(StoreError::NotFound) && *final(self) == *old(self),
            final(self).cache_file_path_view() == old(self).cache_file_path_view(),
    {
        let ghost pre = *old(self);
        proof {
            crate::assoc::lemma_kmap_contains(self.cache.repositories@, repo_path@);
        }
        let owned: String = repo_path.to_owned();
        match kfind(&self.cache.repositories, &owned) {
            None => Err(StoreError::NotFound),
            Some(i) => {
                let ghost docseq = self.cache.repositories@;
                proof {
                    crate::assoc::lemma_kmap_index(docseq, i as int);
                }
                let mut rec = self.cache.repositories.remove(i);
                rec.is_pinned = !rec.is_pinned;
                if rec.is_pinned {
                    rec.pinned_at = Some(now);
                } else {
                    rec.pinned_at = None;
                }
                let ret = rec.duplicate();
                let cached = rec.duplicate();
                self.cache.repositories.insert(i, rec);
                proof {
                    assert(self.cache.repositories@ =~= docseq.update(
                        i as int,
                        self.cache.repositories@[i as int],
                    ));
                    crate::assoc::lemma_kmap_update(
                        docseq,
                        i as int,
                        self.cache.repositories@[i as int],
                    );
                }
                lru_put(&mut self.lru_cache, owned, cached);
                self.cache.last_updated = now;
                proof {
                    let post = *self;
                    let updated = post.cache.repositories@[i as int];
                    assert(updated.wf());
                    assert(post.repos()[repo_path@] == updated);
                    assert(updated@ == toggle_model(pre.repos()[repo_path@]@, now));
                    assert(post.doc().wf()) by {
                        assert forall|j: int|
                            0 <= j < post.cache.repositories@.len() implies (
                        #[trigger] post.cache.repositories@[j]).wf() by {
                            if j != i {
                                assert(post.cache.repositories@[j] == docseq[j]);
                            }
                        }
                    }
                    assert forall|p: Seq<char>|
                        post.trie_has(p) <==> post.repos().contains_key(p) by {
                        assert(pre.trie_has(p) <==> pre.repos().contains_key(p));
                        assert(post.repos().dom() =~= pre.repos().dom());
                    }
                    assert(post.lru_ok()) by {
                        assert forall|k: Seq<char>|
                            #[trigger] post.lru_view().contains_key(k) implies post.repos(
                        ).contains_key(k) && post.lru_view()[k]@ == post.repos()[k]@ by {
                            if k == repo_path@ {
                                assert(post.lru_view()[k] == cached);
                            } else {
                                assert(pre.lru_view().contains_key(k));
                            }
                        }
                    }
                    assert(post.repos() =~= pre.repos().insert(
                        repo_path@,
                        post.repos()[repo_path@],
                    ));
                }
                Ok(ret)
            },
        }
    }

    /// Every pinned record, in document order, as copies.
    #[verifier::loop_isolation(false)]
    pub fn get_pinned_repositories(&self) -> (r: Vec<GitRepository>)
        ensures
            r.deep_view() == self.repo_models().filter(pinned_pred()),
    {
        let mut r: Vec<GitRepository> = Vec::new();
        let ghost models = self.repo_models();
        let mut i: usize = 0;
        proof {
            assert(models.take(0) =~= Seq::<GitRepositoryModel>::empty());
            assert(Seq::<GitRepositoryModel>::empty().filter(pinned_pred())
                =~= Seq::<GitRepositoryModel>::empty());
            assert(r.deep_view() =~= Seq::<GitRepositoryModel>::empty());
        }
        while i < self.cache.repositories.len()
            invariant
                i <= self.cache.repositories@.len(),
                r.deep_view() == models.take(i as int).filter(pinned_pred()),
            decreases self.cache.repositories@.len() - i,
        {
            let ghost taken = models.take(i as int);
            proof {
                assert(models.take(i as int + 1) =~= taken.push(models[i as int]));
                taken.lemma_filter_push(models[i as int], pinned_pred());
                assert(models[i as int] == self.cache.repositories@[i as int]@);
            }
            if self.cache.repositories[i].is_pinned {
                let ghost dv0 = r.deep_view();
                r.push(self.cache.repositories[i].duplicate());
                proof {
                    assert(r.deep_view() =~= dv0.push(models[i as int])) by {
                        assert forall|j: int|
                            0 <= j < r.deep_view().len() implies r.deep_view()[j] == dv0.push(
                            models[i as int],
                        )[j] by {
                            assert(r.deep_view()[j] == r@[j]@);
                        }
                    }
                }
            }
            i += 1;
        }
        proof {
            assert(models.take(models.len() as int) =~= models);
        }
        r
    }

    /// How many known repositories lie under the string prefix `path`.
    #[verifier::loop_isolation(false)]
    fn count_prefixed(&self, path: &String) -> (r: u64)
        ensures
            r == self.repo_models().filter(root_pred(path@)).len(),
    {
        let ghost models = self.repo_models();
        let mut cnt: u64 = 0;
        let mut i: usize = 0;
        proof {
            assert(models.take(0) =~= Seq::<GitRepositoryModel>::empty());
            assert(Seq::<GitRepositoryModel>::empty().filter(root_pred(path@))
                =~= Seq::<GitRepositoryModel>::empty());
        }
        while i < self.cache.repositories.len()
            invariant
                i <= self.cache.repositories@.len(),
                cnt == models.take(i as int).filter(root_pred(path@)).len(),
                cnt <= i,
            decreases self.cache.repositories@.len() - i,
        {
            let ghost taken = models.take(i as int);
            proof {
                assert(models.take(i as int + 1) =~= taken.push(models[i as int]));
                taken.lemma_filter_push(models[i as int], root_pred(path@));
                assert(models[i as int] == self.cache.repositories@[i as int]@);
                taken.lemma_filter_len(root_pred(path@));
            }
            if crate::paths::str_starts_with(
                self.cache.repositories[i].path.as_str(),
                path.as_str(),
            ) {
                cnt = cnt + 1;
            }
            i += 1;
        }
        proof {
            assert(models.take(models.len() as int) =~= models);
        }
        cnt
    }

    /// Register (or re-register) a scan root: its repository count is
    /// recomputed over the current records and its scan time set to `now`.
    pub fn add_scan_path(&mut self, path: String, now: i64)
        requires
            old(self).inv(),
        ensures
            final(self).inv(),
            final(self).roots() == old(self).roots().insert(
                path@,
                (ScanPath {
                    path: path,
                    last_scanned: Some(now),
                    repository_count: old(self).repo_models().filter(
                        root_pred(path@),
                    ).len() as u64,
                }),
            ),
            final(self).repos() == old(self).repos(),
            final(self).colls() == old(self).colls(),
            final(self).last_updated() == now,
            final(self).doc().cache_version == old(self).doc().cache_version,
            final(self).index() == old(self).index(),
            final(self).cache_file_path_view() == old(self).cache_file_path_view(),
    {
        let count = self.count_prefixed(&path);
        let key = path.clone();
        let root = ScanPath { path, last_scanned: Some(now), repository_count: count };
        kupsert(&mut self.cache.scan_paths, &key, root);
        self.cache.last_updated = now;
        proof {
            assert(self.cache.repositories@ == old(self).cache.repositories@);
            assert forall|p: Seq<char>|
                self.trie_has(p) <==> self.repos().contains_key(p) by {
                assert(old(self).trie_has(p) <==> old(self).repos().contains_key(p));
            }
            assert(self.lru_ok()) by {
                assert forall|k: Seq<char>|
                    #[trigger] self.lru_view().contains_key(k) implies self.repos().contains_key(
                    k,
                ) && self.lru_view()[k]@ == self.repos()[k]@ by {
                    assert(old(self).lru_view().contains_key(k));
                }
            }
        }
    }

    /// Forget a scan root. The repositories found under it stay.
    pub fn remove_scan_path(&mut self, path: &str, now: i64)
        requires
            old(self).inv(),
        ensures
            final(self).inv(),
            final(self).roots() == old(self).roots().remove(path@),
            final(self).repos() == old(self).repos(),
            final(self).colls() == old(self).colls(),
            final(self).last_updated() == now,
            final(self).doc().cache_version == old(self).doc().cache_version,
            final(self).index() == old(self).index(),
            final(self).cache_file_path_view() == old(self).cache_file_path_view(),
    {
        let owned: String = path.to_owned();
        kremove(&mut self.cache.scan_paths, &owned);
        self.cache.last_updated = now;
        proof {
            assert(self.cache.repositories@ == old(self).cache.repositories@);
            assert forall|p: Seq<char>|
                self.trie_has(p) <==> self.repos().contains_key(p) by {
                assert(old(self).trie_has(p) <==> old(self).repos().contains_key(p));
            }
            assert(self.lru_ok()) by {
                assert forall|k: Seq<char>|
                    #[trigger] self.lru_view().contains_key(k) implies self.repos().contains_key(
                    k,
                ) && self.lru_view()[k]@ == self.repos()[k]@ by {
                    assert(old(self).lru_view().contains_key(k));
                }
            }
        }
    }

    /// Stamp a registered scan root with `now` and recompute its repository
    /// count; an unknown root only bumps the document timestamp, as a full
    /// read-modify-write does.
    pub fn update_scan_path_last_scanned(&mut self, path: &str, now: i64)
        requires
            old(self).inv(),
        ensures
            final(self).inv(),
            old(self).roots().contains_key(path@) ==> final(self).roots() == old(
                self,
            ).roots().insert(
                path@,
                (ScanPath {
                    last_scanned: Some(now),
                    repository_count: old(self).repo_models().filter(
                        root_pred(path@),
                    ).len() as u64,
                    ..old(self).roots()[path@]
                }),
            ),
            !old(self).roots().contains_key(path@) ==> final(self).roots() == old(self).roots(),
            final(self).repos() == old(self).repos(),
            final(self).colls() == old(self).colls(),
            final(self).last_updated() == now,
            final(self).doc().cache_version == old(self).doc().cache_version,
            final(self).index() == old(self).index(),
            final(self).cache_file_path_view() == old(self).cache_file_path_view(),
    {
        let ghost pre = *old(self);
        let owned: String = path.to_owned();
        proof {
            crate::assoc::lemma_kmap_contains(self.cache.scan_paths@, path@);
        }
        match kfind(&self.cache.scan_paths, &owned) {
            None => {},
            Some(i) => {
                let ghost rootseq = self.cache.scan_paths@;
                proof {
                    crate::assoc::lemma_kmap_index(rootseq, i as int);
                }
                let count = self.count_prefixed(&owned);
                let mut root = self.cache.scan_paths.remove(i);
                root.last_scanned = Some(now);
                root.repository_count = count;
                self.cache.scan_paths.insert(i, root);
                proof {
                    assert(self.cache.scan_paths@ =~= rootseq.update(
                        i as int,
                        self.cache.scan_paths@[i as int],
                    ));
                    crate::assoc::lemma_kmap_update(
                        rootseq,
                        i as int,
                        self.cache.scan_paths@[i as int],
                    );
                }
            },
        }
        self.cache.last_updated = now;
        proof {
            assert(self.cache.repositories@ == old(self).cache.repositories@);
            assert forall|p: Seq<char>|
                self.trie_has(p) <==> self.repos().contains_key(p) by {
                assert(old(self).trie_has(p) <==> old(self).repos().contains_key(p));
            }
            assert(self.lru_ok()) by {
                assert forall|k: Seq<char>|
                    #[trigger] self.lru_view().contains_key(k) implies self.repos().contains_key(
                    k,
                ) && self.lru_view()[k]@ == self.repos()[k]@ by {
                    assert(old(self).lru_view().contains_key(k));
                }
            }
        }
    }

    /// All registered scan roots, in document order, as copies.
    #[verifier::loop_isolation(false)]
    pub fn get_scan_paths(&self) -> (r: Vec<ScanPath>)
        ensures
            r.deep_view() == self.doc().scan_paths.deep_view(),
    {
        let mut r: Vec<ScanPath> = Vec::new();
        let mut i: usize = 0;
        while i < self.cache.scan_paths.len()
            invariant
                i <= self.cache.scan_paths@.len(),
                r@.len() == i,
                forall|j: int| 0 <= j < i ==> (#[trigger] r@[j])@ == self.cache.scan_paths@[j]@,
            decreases self.cache.scan_paths@.len() - i,
        {
            r.push(self.cache.scan_paths[i].duplicate());
            i += 1;
        }
        proof {
            assert(r.deep_view() =~= self.cache.scan_paths.deep_view()) by {
                assert forall|j: int|
                    0 <= j < r@.len() implies r.deep_view()[j] == self.cache.scan_paths.deep_view()[
                j] by {
                    assert(r.deep_view()[j] == r@[j]@);
                    assert(self.cache.scan_paths.deep_view()[j] == self.cache.scan_paths@[j]@);
                }
            }
        }
        r
    }
}

/// Whether some collection already carries the name `n`.
pub open spec fn name_taken(colls: Seq<crate::repo_types::CollectionModel>, n: Seq<char>) -> bool {
    exists|i: int| 0 <= i < colls.len() && colls[i].name == n
}

/// The records of `paths` that are present in `repos`, in list order;
/// dangling paths contribute nothing.
pub open spec fn present_records(
    repos: Map<Seq<char>, GitRepository>,
    paths: Seq<Seq<char>>,
) -> Seq<GitRepositoryModel>
    decreases paths.len(),
{
    if paths.len() == 0 {
        Seq::empty()
    } else {
        present_records(repos, paths.drop_last()) + if repos.contains_key(paths.last()) {
            seq![repos[paths.last()]@]
        } else {
            Seq::empty()
        }
    }
}

/// Counts over the store and its caches, for diagnostics.
pub struct OptimizationStats {
    pub total_repositories: u64,
    pub lru_cache_size: u64,
    pub lru_cache_capacity: u64,
    pub index_name_entries: u64,
    pub index_size_ranges: u64,
    pub index_file_types: u64,
}

/// Relies on uuid::Uuid::new_v4 and its hyphenated display form: an opaque
/// 36-character identifier drawn at random.
#[verifier::external_body]
fn new_collection_id() -> (r: String)
    ensures
        r@.len() == 36,
{
    uuid::Uuid::new_v4().to_string()
}

impl DataStore {
    /// The collections of the document, in order, as models.
    pub open spec fn coll_models(self) -> Seq<crate::repo_types::CollectionModel> {
        self.doc().collections.deep_view()
    }

    /// Create a collection under a freshly drawn id. Fails with
    /// `DuplicateName`, leaving the store untouched, when any collection
    /// already carries the name; a collection that happens to carry the same
    /// id would be replaced, as a map insert.
    #[verifier::loop_isolation(false)]
    pub fn create_collection(&mut self, name: String, color: String, now: i64) -> (r: Result<
        Collection,
        StoreError,
    >)
        requires
            old(self).inv(),
        ensures
            final(self).inv(),
            name_taken(old(self).coll_models(), name@) ==> r == Err::<Collection, StoreError>(
                StoreError::DuplicateName,
            ) && *final(self) == *old(self),
            !name_taken(old(self).coll_models(), name@) ==> {
                &&& r matches Ok(c) && c@.name == name@ && c@.color == color@ && c@.created_at
                    == now && c@.repository_paths == Seq::<Seq<char>>::empty() && c@.id.len()
                    == 36 && final(self).colls().contains_key(c@.id) && final(self).colls()[
                    c@.id]@ == c@ && final(self).colls() == old(self).colls().insert(
                    c@.id,
                    final(self).colls()[c@.id],
                )
                &&& final(self).repos() == old(self).repos()
                &&& final(self).roots() == old(self).roots()
                &&& final(self).last_updated() == now
                &&& final(self).doc().cache_version == old(self).doc().cache_version
                &&& final(self).index() == old(self).index()
            },
            final(self).cache_file_path_view() == old(self).cache_file_path_view(),
    {
        let ghost models = self.coll_models();
        let mut i: usize = 0;
        while i < self.cache.collections.len()
            invariant
                i <= self.cache.collections@.len(),
                forall|j: int| 0 <= j < i ==> models[j].name != name@,
            decreases self.cache.collections@.len() - i,
        {
            proof {
                assert(models[i as int] == self.cache.collections@[i as int]@);
            }
            if self.cache.collections[i].name.eq(&name) {
                proof {
                    assert(name_taken(models, name@));
                }
                return Err(StoreError::DuplicateName);
            }
            i += 1;
        }
        proof {
            if name_taken(models, name@) {
                let j = choose|j: int| 0 <= j < models.len() && models[j].name == name@;
            }
        }
        let id = new_collection_id();
        let key = id.clone();
        let collection = Collection {
            id,
            name,
            color,
            repository_paths: Vec::new(),
            created_at: now,
        };
        let ret = collection.duplicate();
        proof {
            assert(collection@.repository_paths =~= Seq::<Seq<char>>::empty());
        }
        kupsert(&mut self.cache.collections, &key, collection);
        self.cache.last_updated = now;
        proof {
            assert(self.cache.repositories@ == old(self).cache.repositories@);
            assert forall|p: Seq<char>|
                self.trie_has(p) <==> self.repos().contains_key(p) by {
                assert(old(self).trie_has(p) <==> old(self).repos().contains_key(p));
            }
            assert(self.lru_ok()) by {
                assert forall|k: Seq<char>|
                    #[trigger] self.lru_view().contains_key(k) implies self.repos().contains_key(
                    k,
                ) && self.lru_view()[k]@ == self.repos()[k]@ by {
                    assert(old(self).lru_view().contains_key(k));
                }
            }
        }
        Ok(ret)
    }

    /// All collections, in document order, as copies.
    #[verifier::loop_isolation(false)]
    pub fn get_collections(&self) -> (r: Vec<Collection>)
        ensures
            r.deep_view() == self.coll_models(),
    {
        let mut r: Vec<Collection> = Vec::new();
        let mut i: usize = 0;
        while i < self.cache.collections.len()
            invariant
                i <= self.cache.collections@.len(),
                r@.len() == i,
                forall|j: int| 0 <= j < i ==> (#[trigger] r@[j])@ == self.cache.collections@[j]@,
            decreases self.cache.collections@.len() - i,
        {
            r.push(self.cache.collections[i].duplicate());
            i += 1;
        }
        proof {
            assert(r.deep_view() =~= self.coll_models()) by {
                assert forall|j: int|
                    0 <= j < r@.len() implies r.deep_view()[j] == self.coll_models()[j] by {
                    assert(r.deep_view()[j] == r@[j]@);
                    assert(self.coll_models()[j] == self.cache.collections@[j]@);
                }
            }
        }
        r
    }

    /// Add a repository to a collection's membership list. Fails with
    /// `NotFound`, untouched, when the repository or the collection is
    /// absent; adding a path already present is a no-op that still counts as
    /// a write.
    pub fn add_repository_to_collection(
        &mut self,
        collection_id: &str,
        repo_path: &str,
        now: i64,
    ) -> (r: Result<(), StoreError>)
        requires
            old(self).inv(),
        ensures
            final(self).inv(),
            !old(self).repos().contains_key(repo_path@) ==> r == Err::<(), StoreError>(
                StoreError::NotFound,
            ) && *final(self) == *old(self),
            old(self).repos().contains_key(repo_path@) && !old(self).colls().contains_key(
                collection_id@,
            ) ==> r == Err::<(), StoreError>(StoreError::NotFound) && *final(self) == *old(self),
            old(self).repos().contains_key(repo_path@) && old(self).colls().contains_key(
                collection_id@,
            ) ==> {
                &&& r == Ok::<(), StoreError>(())
                &&& final(self).colls().dom() == old(self).colls().dom()
                &&& final(self).colls()[collection_id@]@.repository_paths == if old(
                    self,
                ).colls()[collection_id@]@.repository_paths.contains(repo_path@) {
                    old(self).colls()[collection_id@]@.repository_paths
                } else {
                    old(self).colls()[collection_id@]@.repository_paths.push(repo_path@)
                }
                &&& final(self).colls()[collection_id@]@.id == old(self).colls()[
                    collection_id@]@.id
                &&& final(self).colls()[collection_id@]@.name == old(self).colls()[
                    collection_id@]@.name
                &&& final(self).colls()[collection_id@]@.color == old(self).colls()[
                    collection_id@]@.color
                &&& final(self).colls()[collection_id@]@.created_at == old(self).colls()[
                    collection_id@]@.created_at
                &&& forall|k: Seq<char>|
                    k != collection_id@ && #[trigger] old(self).colls().contains_key(k)
                        ==> final(self).colls()[k] == old(self).colls()[k]
                &&& final(self).repos() == old(self).repos()
                &&& final(self).roots() == old(self).roots()
                &&& final(self).last_updated() == now
                &&& final(self).doc().cache_version == old(self).doc().cache_version
                &&& final(self).index() == old(self).index()
            },
            final(self).cache_file_path_view() == old(self).cache_file_path_view(),
    {
        let ghost pre = *old(self);
        let repo_key: String = repo_path.to_owned();
        proof {
            crate::assoc::lemma_kmap_contains(self.cache.repositories@, repo_path@);
            crate::assoc::lemma_kmap_contains(self.cache.collections@, collection_id@);
        }
        if kfind(&self.cache.repositories, &repo_key).is_none() {
            return Err(StoreError::NotFound);
        }
        let coll_key: String = collection_id.to_owned();
        match kfind(&self.cache.collections, &coll_key) {
            None => Err(StoreError::NotFound),
            Some(i) => {
                let ghost collseq = self.cache.collections@;
                proof {
                    crate::assoc::lemma_kmap_index(collseq, i as int);
                }
                let mut coll = self.cache.collections.remove(i);
                let ghost paths0 = coll.repository_paths.deep_view();
                if !crate::assoc::contains_string(&coll.repository_paths, &repo_key) {
                    coll.repository_paths.push(repo_key);
                    proof {
                        assert(coll.repository_paths.deep_view() =~= paths0.push(repo_path@)) by {
                            assert forall|j: int|
                                0 <= j < coll.repository_paths.deep_view().len() implies
                                coll.repository_paths.deep_view()[j] == paths0.push(repo_path@)[
                            j] by {
                                assert(coll.repository_paths.deep_view()[j]
                                    == coll.repository_paths@[j]@);
                            }
                        }
                        assert(!paths0.contains(repo_path@)) by {
                            if paths0.contains(repo_path@) {
                                let j = choose|j: int|
                                    0 <= j < paths0.len() && paths0[j] == repo_path@;
                                assert(crate::assoc::has_str(
                                    pre.colls()[collection_id@].repository_paths@,
                                    repo_path@,
                                ));
                            }
                        }
                    }
                } else {
                    proof {
                        assert(paths0.contains(repo_path@)) by {
                            let j = choose|j: int|
                                0 <= j < pre.colls()[collection_id@].repository_paths@.len()
                                    && pre.colls()[collection_id@].repository_paths@[j]@
                                    == repo_path@;
                            assert(paths0[j] == repo_path@);
                        }
                    }
                }
                self.cache.collections.insert(i, coll);
                proof {
                    assert(self.cache.collections@ =~= collseq.update(
                        i as int,
                        self.cache.collections@[i as int],
                    ));
                    crate::assoc::lemma_kmap_update(
                        collseq,
                        i as int,
                        self.cache.collections@[i as int],
                    );
                }
                self.cache.last_updated = now;
                proof {
                    assert(self.cache.repositories@ == pre.cache.repositories@);
                    assert(self.colls().dom() =~= pre.colls().dom());
                    assert forall|p: Seq<char>|
                        self.trie_has(p) <==> self.repos().contains_key(p) by {
                        assert(pre.trie_has(p) <==> pre.repos().contains_key(p));
                    }
                    assert(self.lru_ok()) by {
                        assert forall|k: Seq<char>|
                            #[trigger] self.lru_view().contains_key(k) implies self.repos(
                        ).contains_key(k) && self.lru_view()[k]@ == self.repos()[k]@ by {
                            assert(pre.lru_view().contains_key(k));
                        }
                    }
                }
                Ok(())
            },
        }
    }

    /// Delete one path from a collection's membership list; every occurrence
    /// goes. Fails with `NotFound`, untouched, when the collection is absent.
    pub fn remove_repository_from_collection(
        &mut self,
        collection_id: &str,
        repo_path: &str,
        now: i64,
    ) -> (r: Result<(), StoreError>)
        requires
            old(self).inv(),
        ensures
            final(self).inv(),
            !old(self).colls().contains_key(collection_id@) ==> r == Err::<(), StoreError>(
                StoreError::NotFound,
            ) && *final(self) == *old(self),
            old(self).colls().contains_key(collection_id@) ==> {
                &&& r == Ok::<(), StoreError>(())
                &&& final(self).colls().dom() == old(self).colls().dom()
                &&& final(self).colls()[collection_id@]@.repository_paths == old(self).colls()[
                    collection_id@]@.repository_paths.filter(
                    crate::repo_index::keep_other(repo_path@),
                )
                &&& final(self).colls()[collection_id@]@.id == old(self).colls()[
                    collection_id@]@.id
                &&& final(self).colls()[collection_id@]@.name == old(self).colls()[
                    collection_id@]@.name
                &&& final(self).colls()[collection_id@]@.color == old(self).colls()[
                    collection_id@]@.color
                &&& final(self).colls()[collection_id@]@.created_at == old(self).colls()[
                    collection_id@]@.created_at
                &&& forall|k: Seq<char>|
                    k != collection_id@ && #[trigger] old(self).colls().contains_key(k)
                        ==> final(self).colls()[k] == old(self).colls()[k]
                &&& final(self).repos() == old(self).repos()
                &&& final(self).roots() == old(self).roots()
                &&& final(self).last_updated() == now
                &&& final(self).doc().cache_version == old(self).doc().cache_version
                &&& final(self).index() == old(self).index()
            },
            final(self).cache_file_path_view() == old(self).cache_file_path_view(),
    {
        let ghost pre = *old(self);
        let coll_key: String = collection_id.to_owned();
        proof {
            crate::assoc::lemma_kmap_contains(self.cache.collections@, collection_id@);
        }
        match kfind(&self.cache.collections, &coll_key) {
            None => Err(StoreError::NotFound),
            Some(i) => {
                let ghost collseq = self.cache.collections@;
                proof {
                    crate::assoc::lemma_kmap_index(collseq, i as int);
                }
                let path_key: String = repo_path.to_owned();
                let mut coll = self.cache.collections.remove(i);
                coll.repository_paths = crate::repo_index::filter_out_path(
                    &coll.repository_paths,
                    &path_key,
                );
                self.cache.collections.insert(i, coll);
                proof {
                    assert(self.cache.collections@ =~= collseq.update(
                        i as int,
                        self.cache.collections@[i as int],
                    ));
                    crate::assoc::lemma_kmap_update(
                        collseq,
                        i as int,
                        self.cache.collections@[i as int],
                    );
                }
                self.cache.last_updated = now;
                proof {
                    assert(self.cache.repositories@ == pre.cache.repositories@);
                    assert(self.colls().dom() =~= pre.colls().dom());
                    assert forall|p: Seq<char>|
                        self.trie_has(p) <==> self.repos().contains_key(p) by {
                        assert(pre.trie_has(p) <==> pre.repos().contains_key(p));
                    }
                    assert(self.lru_ok()) by {
                        assert forall|k: Seq<char>|
                            #[trigger] self.lru_view().contains_key(k) implies self.repos(
                        ).contains_key(k) && self.lru_view()[k]@ == self.repos()[k]@ by {
                            assert(pre.lru_view().contains_key(k));
                        }
                    }
                }
                Ok(())
            },
        }
    }

    /// Delete a whole collection. The repositories it grouped are untouched.
    /// Fails with `NotFound`, untouched, when the collection is absent.
    pub fn delete_collection(&mut self, collection_id: &str, now: i64) -> (r: Result<
        (),
        StoreError,
    >)
        requires
            old(self).inv(),
        ensures
            final(self).inv(),
            !old(self).colls().contains_key(collection_id@) ==> r == Err::<(), StoreError>(
                StoreError::NotFound,
            ) && *final(self) == *old(self),
            old(self).colls().contains_key(collection_id@) ==> {
                &&& r == Ok::<(), StoreError>(())
                &&& final(self).colls() == old(self).colls().remove(collection_id@)
                &&& final(self).repos() == old(self).repos()
                &&& final(self).roots() == old(self).roots()
                &&& final(self).last_updated() == now
                &&& final(self).doc().cache_version == old(self).doc().cache_version
                &&& final(self).index() == old(self).index()
            },
            final(self).cache_file_path_view() == old(self).cache_file_path_view(),
    {
        let ghost pre = *old(self);
        let coll_key: String = collection_id.to_owned();
        proof {
            crate::assoc::lemma_kmap_contains(self.cache.collections@, collection_id@);
        }
        if kfind(&self.cache.collections, &coll_key).is_none() {
            return Err(StoreError::NotFound);
        }
        kremove(&mut self.cache.collections, &coll_key);
        self.cache.last_updated = now;
        proof {
            assert(self.cache.repositories@ == pre.cache.repositories@);
            assert forall|p: Seq<char>|
                self.trie_has(p) <==> self.repos().contains_key(p) by {
                assert(pre.trie_has(p) <==> pre.repos().contains_key(p));
            }
            assert(self.lru_ok()) by {
                assert forall|k: Seq<char>|
                    #[trigger] self.lru_view().contains_key(k) implies self.repos().contains_key(
                    k,
                ) && self.lru_view()[k]@ == self.repos()[k]@ by {
                    assert(pre.lru_view().contains_key(k));
                }
            }
        }
        Ok(())
    }

    /// The records a collection currently groups, in membership order,
    /// silently dropping member paths whose repository no longer exists: the
    /// documented read-time filter for dangling references. Fails with
    /// `NotFound` when the collection is absent.
    #[verifier::loop_isolation(false)]
    pub fn get_repositories_in_collection(&self, collection_id: &str) -> (r: Result<
        Vec<GitRepository>,
        StoreError,
    >)
        requires
            self.inv(),
        ensures
            !self.colls().contains_key(collection_id@) ==> r == Err::<
                Vec<GitRepository>,
                StoreError,
            >(StoreError::NotFound),
            self.colls().contains_key(collection_id@) ==> (r matches Ok(v) && v.deep_view()
                == present_records(
                self.repos(),
                self.colls()[collection_id@]@.repository_paths,
            )),
    {
        let coll_key: String = collection_id.to_owned();
        proof {
            crate::assoc::lemma_kmap_contains(self.cache.collections@, collection_id@);
        }
        let coll = match kget(&self.cache.collections, &coll_key) {
            None => {
                return Err(StoreError::NotFound);
            },
            Some(c) => c,
        };
        let ghost paths = coll@.repository_paths;
        let mut out: Vec<GitRepository> = Vec::new();
        let mut i: usize = 0;
        proof {
            assert(paths.take(0) =~= Seq::<Seq<char>>::empty());
            assert(out.deep_view() =~= present_records(self.repos(), paths.take(0)));
        }
        while i < coll.repository_paths.len()
            invariant
                i <= coll.repository_paths@.len(),
                paths == coll@.repository_paths,
                out.deep_view() == present_records(self.repos(), paths.take(i as int)),
            decreases coll.repository_paths@.len() - i,
        {
            let ghost dv0 = out.deep_view();
            proof {
                assert(paths.take(i as int + 1).drop_last() =~= paths.take(i as int));
                assert(paths.take(i as int + 1).last() == paths[i as int]);
                assert(paths[i as int] == coll.repository_paths@[i as int]@);
            }
            match kget(&self.cache.repositories, &coll.repository_paths[i]) {
                Some(rec) => {
                    out.push(rec.duplicate());
                    proof {
                        assert(out.deep_view() =~= dv0.push(self.repos()[paths[i as int]]@)) by {
                            assert forall|j: int|
                                0 <= j < out.deep_view().len() implies out.deep_view()[j]
                                == dv0.push(self.repos()[paths[i as int]]@)[j] by {
                                assert(out.deep_view()[j] == out@[j]@);
                            }
                        }
                        assert(dv0.push(self.repos()[paths[i as int]]@) =~= dv0 + seq![
                            self.repos()[paths[i as int]]@,
                        ]);
                    }
                },
                None => {
                    proof {
                        assert(out.deep_view() =~= dv0 + Seq::<GitRepositoryModel>::empty());
                    }
                },
            }
            i += 1;
        }
        proof {
            assert(paths.take(paths.len() as int) =~= paths);
        }
        Ok(out)
    }

    /// Look a record up by path, preferring the recency cache and falling
    /// back to the canonical document, which backfills the cache. The answer
    /// is always what the document holds.
    pub fn get_repository_fast(&mut self, repo_path: &str) -> (r: Option<GitRepository>)
        requires
            old(self).inv(),
        ensures
            final(self).inv(),
            final(self).doc() == old(self).doc(),
            final(self).index() == old(self).index(),
            final(self).cache_file_path_view() == old(self).cache_file_path_view(),
            r is Some <==> old(self).repos().contains_key(repo_path@),
            r matches Some(v) ==> v@ == old(self).repos()[repo_path@]@,
    {
        let ghost pre = *old(self);
        let owned: String = repo_path.to_owned();
        let hit = lru_get(&mut self.lru_cache, &owned);
        match hit {
            Some(v) => {
                proof {
                    assert(pre.lru_view().contains_key(repo_path@));
                    assert(self.cache == pre.cache);
                    assert forall|p: Seq<char>|
                        self.trie_has(p) <==> self.repos().contains_key(p) by {
                        assert(pre.trie_has(p) <==> pre.repos().contains_key(p));
                    }
                    assert(self.lru_ok()) by {
                        assert forall|k: Seq<char>|
                            #[trigger] self.lru_view().contains_key(k) implies self.repos(
                        ).contains_key(k) && self.lru_view()[k]@ == self.repos()[k]@ by {
                            assert(pre.lru_view().contains_key(k));
                        }
                    }
                }
                Some(v)
            },
            None => {
                proof {
                    crate::assoc::lemma_kmap_contains(self.cache.repositories@, repo_path@);
                }
                match kget(&self.cache.repositories, &owned) {
                    Some(rec) => {
                        let found = rec.duplicate();
                        let backfill = found.duplicate();
                        let ghost mid = *self;
                        lru_put(&mut self.lru_cache, owned, backfill);
                        proof {
                            assert(self.cache == pre.cache);
                            assert forall|p: Seq<char>|
                                self.trie_has(p) <==> self.repos().contains_key(p) by {
                                assert(pre.trie_has(p) <==> pre.repos().contains_key(p));
                            }
                            assert(self.lru_ok()) by {
                                assert forall|k: Seq<char>|
                                    #[trigger] self.lru_view().contains_key(k) implies self.repos(
                                ).contains_key(k) && self.lru_view()[k]@ == self.repos()[k]@ by {
                                    if k == repo_path@ {
                                        assert(self.lru_view()[k] == backfill);
                                    } else {
                                        assert(mid.lru_view().contains_key(k));
                                        assert(pre.lru_view().contains_key(k));
                                    }
                                }
                            }
                        }
                        Some(found)
                    },
                    None => {
                        proof {
                            assert(self.cache == pre.cache);
                            assert forall|p: Seq<char>|
                                self.trie_has(p) <==> self.repos().contains_key(p) by {
                                assert(pre.trie_has(p) <==> pre.repos().contains_key(p));
                            }
                            assert(self.lru_ok()) by {
                                assert forall|k: Seq<char>|
                                    #[trigger] self.lru_view().contains_key(k) implies self.repos(
                                ).contains_key(k) && self.lru_view()[k]@ == self.repos()[k]@ by {
                                    assert(pre.lru_view().contains_key(k));
                                }
                            }
                        }
                        None
                    },
                }
            },
        }
    }

    /// The records of every repository lying at or below `path`, by whole
    /// path segments.
    #[verifier::loop_isolation(false)]
    pub fn find_repositories_under_path_optimized(&self, path: &str) -> (r: Vec<GitRepository>)
        requires
            self.inv(),
        ensures
            forall|j: int|
                0 <= j < r.deep_view().len() ==> {
                    &&& self.repos().contains_key((#[trigger] r.deep_view()[j]).path)
                    &&& r.deep_view()[j] == self.repos()[r.deep_view()[j].path]@
                    &&& crate::paths::seg_split(
                        vstd::utf8::encode_utf8(path@),
                    ).is_prefix_of(path_segs(r.deep_view()[j].path))
                },
            forall|p: Seq<char>|
                self.repos().contains_key(p) && crate::paths::seg_split(
                    vstd::utf8::encode_utf8(path@),
                ).is_prefix_of(path_segs(p)) ==> exists|j: int|
                    0 <= j < r.deep_view().len() && (#[trigger] r.deep_view()[j]).path == p,
            forall|a: int, b: int|
                0 <= a < b < r.deep_view().len() ==> (#[trigger] r.deep_view()[a]).path != (
                #[trigger] r.deep_view()[b]).path,
    {
        let found = self.path_trie.find_repositories_under_path(path);
        let mut out: Vec<GitRepository> = Vec::new();
        let mut i: usize = 0;
        while i < found.len()
            invariant
                i <= found@.len(),
                out.deep_view().len() == i,
                forall|j: int|
                    0 <= j < i ==> (#[trigger] out.deep_view()[j]).path == found@[j]@
                        && out.deep_view()[j] == self.repos()[found@[j]@]@,
            decreases found@.len() - i,
        {
            proof {
                assert(crate::assoc::has_str(found@, found@[i as int]@));
                assert(self.trie_has(found@[i as int]@));
                assert(self.repos().contains_key(found@[i as int]@));
                crate::repo_types::lemma_repos_value_wf(self.cache, found@[i as int]@);
            }
            let rec = match kget(&self.cache.repositories, &found[i]) {
                Some(rec) => rec,
                None => {
                    proof {
                        assert(false);
                    }
                    unreached()
                },
            };
            let ghost dv0 = out.deep_view();
            out.push(rec.duplicate());
            proof {
                assert(out@[i as int]@ == rec@);
                assert forall|j: int|
                    0 <= j < i + 1 implies (#[trigger] out.deep_view()[j]).path == found@[j]@
                        && out.deep_view()[j] == self.repos()[found@[j]@]@ by {
                    assert(out.deep_view()[j] == out@[j]@);
                    if j < i {
                        assert(out@[j]@ == dv0[j]);
                    } else {
                        assert(out@[j]@ == rec@);
                        assert(self.repos()[found@[i as int]@].path@ == found@[i as int]@);
                    }
                }
            }
            i += 1;
        }
        proof {
            assert forall|p: Seq<char>|
                self.repos().contains_key(p) && crate::paths::seg_split(
                    vstd::utf8::encode_utf8(path@),
                ).is_prefix_of(path_segs(p)) implies exists|j: int|
                0 <= j < out.deep_view().len() && (#[trigger] out.deep_view()[j]).path == p by {
                assert(self.trie_has(p));
                assert(crate::assoc::has_str(found@, p));
                let j = choose|j: int| 0 <= j < found@.len() && found@[j]@ == p;
                assert(out.deep_view()[j].path == p);
            }
            assert forall|j: int|
                0 <= j < out.deep_view().len() implies {
                &&& self.repos().contains_key((#[trigger] out.deep_view()[j]).path)
                &&& out.deep_view()[j] == self.repos()[out.deep_view()[j].path]@
                &&& crate::paths::seg_split(vstd::utf8::encode_utf8(path@)).is_prefix_of(
                    path_segs(out.deep_view()[j].path),
                )
            } by {
                assert(crate::assoc::has_str(found@, found@[j]@));
                assert(self.trie_has(found@[j]@));
                assert(self.repos().contains_key(found@[j]@));
                assert(out.deep_view()[j].path == found@[j]@);
            }
        }
        out
    }

    /// Counts over the store, its recency cache and its indices.
    pub fn get_optimization_stats(&self) -> (r: OptimizationStats)
        ensures
            r.total_repositories == self.repo_models().len(),
            r.lru_cache_size == self.lru_view().len(),
            r.lru_cache_capacity == LRU_CAPACITY,
            r.index_name_entries == self.index().by_name@.len(),
            r.index_size_ranges == self.index().by_size_range@.len(),
            r.index_file_types == self.index().by_file_type@.len(),
    {
        OptimizationStats {
            total_repositories: self.cache.repositories.len() as u64,
            lru_cache_size: lru_len(&self.lru_cache) as u64,
            lru_cache_capacity: LRU_CAPACITY as u64,
            index_name_entries: self.repo_index.by_name.len() as u64,
            index_size_ranges: self.repo_index.by_size_range.len() as u64,
            index_file_types: self.repo_index.by_file_type.len() as u64,
        }
    }

    /// Insert or fully replace a record; the same write as `add_repository`,
    /// under the name the search layer uses.
    pub fn add_repository_optimized(&mut self, repo: GitRepository, now: i64)
        requires
            old(self).inv(),
            repo.wf(),
        ensures
            final(self).inv(),
            final(self).repos() == old(self).repos().insert(repo.path@, repo),
            final(self).roots() == old(self).roots(),
            final(self).colls() == old(self).colls(),
            final(self).last_updated() == now,
            final(self).doc().cache_version == old(self).doc().cache_version,
            final(self).cache_file_path_view() == old(self).cache_file_path_view(),
    {
        self.add_repository(repo, now);
    }
}

/// Whether a record's path is among the paths whose VCS marker still exists.
pub open spec fn valid_pred(ex: Seq<Seq<char>>) -> spec_fn(GitRepositoryModel) -> bool {
    |m: GitRepositoryModel| ex.contains(m.path)
}

/// The complement: the marker is gone.
pub open spec fn invalid_pred(ex: Seq<Seq<char>>) -> spec_fn(GitRepositoryModel) -> bool {
    |m: GitRepositoryModel| !ex.contains(m.path)
}

/// A record confirmed valid: only its validity flag is raised.
pub open spec fn set_valid() -> spec_fn(GitRepositoryModel) -> GitRepositoryModel {
    |m: GitRepositoryModel| GitRepositoryModel { is_valid: true, ..m }
}

/// A record's path.
pub open spec fn path_of() -> spec_fn(GitRepositoryModel) -> Seq<char> {
    |m: GitRepositoryModel| m.path
}

impl DataStore {
    /// Partition the records into those whose VCS marker still exists on disk
    /// and those whose path went stale, without touching the store. The
    /// caller settles which paths in `existing_paths` still carry a marker;
    /// valid records come back with their validity flag raised.
    #[verifier::loop_isolation(false)]
    pub fn validate_repositories(&self, existing_paths: &Vec<String>) -> (r: (
        Vec<GitRepository>,
        Vec<String>,
    ))
        requires
            self.inv(),
        ensures
            r.0.deep_view() == self.repo_models().filter(
                valid_pred(existing_paths.deep_view()),
            ).map_values(set_valid()),
            r.1.deep_view() == self.repo_models().filter(
                invalid_pred(existing_paths.deep_view()),
            ).map_values(path_of()),
            forall|a: int, b: int|
                0 <= a < b < r.0.deep_view().len() ==> (#[trigger] r.0.deep_view()[a]).path != (
                #[trigger] r.0.deep_view()[b]).path,
            forall|j: int| 0 <= j < r.0@.len() ==> (#[trigger] r.0@[j]).wf(),
    {
        let ghost models = self.repo_models();
        let ghost ex = existing_paths.deep_view();
        let mut valid: Vec<GitRepository> = Vec::new();
        let mut invalid: Vec<String> = Vec::new();
        let mut i: usize = 0;
        proof {
            assert(models.take(0) =~= Seq::<GitRepositoryModel>::empty());
            assert(Seq::<GitRepositoryModel>::empty().filter(valid_pred(ex))
                =~= Seq::<GitRepositoryModel>::empty());
            assert(Seq::<GitRepositoryModel>::empty().filter(invalid_pred(ex))
                =~= Seq::<GitRepositoryModel>::empty());
            assert(valid.deep_view() =~= Seq::<GitRepositoryModel>::empty().map_values(
                set_valid(),
            ));
            assert(invalid.deep_view() =~= Seq::<GitRepositoryModel>::empty().map_values(
                path_of(),
            ));
        }
        while i < self.cache.repositories.len()
            invariant
                i <= self.cache.repositories@.len(),
                valid.deep_view() == models.take(i as int).filter(valid_pred(ex)).map_values(
                    set_valid(),
                ),
                invalid.deep_view() == models.take(i as int).filter(invalid_pred(ex)).map_values(
                    path_of(),
                ),
                forall|j: int|
                    0 <= j < valid@.len() ==> exists|l: int|
                        0 <= l < i && (#[trigger] valid@[j]).path@ == models[l].path,
                forall|a: int, b: int|
                    0 <= a < b < valid@.len() ==> (#[trigger] valid@[a]).path@ != (
                    #[trigger] valid@[b]).path@,
                forall|j: int| 0 <= j < valid@.len() ==> (#[trigger] valid@[j]).wf(),
            decreases self.cache.repositories@.len() - i,
        {
            let ghost taken = models.take(i as int);
            proof {
                assert(models.take(i as int + 1) =~= taken.push(models[i as int]));
                taken.lemma_filter_push(models[i as int], valid_pred(ex));
                taken.lemma_filter_push(models[i as int], invalid_pred(ex));
                assert(models[i as int] == self.cache.repositories@[i as int]@);
            }
            let rec = &self.cache.repositories[i];
            let keep = crate::assoc::contains_string(existing_paths, &rec.path);
            proof {
                crate::assoc::lemma_has_str_deep(*existing_paths, rec.path@);
                assert(keep == ex.contains(models[i as int].path));
            }
            if keep {
                let ghost dv0 = valid.deep_view();
                let mut copy = rec.duplicate();
                copy.is_valid = true;
                proof {
                    assert(copy@ == set_valid()(models[i as int]));
                    assert(copy.wf()) by {
                        crate::repo_types::lemma_wf_view(
                            self.cache.repositories@[i as int],
                            (GitRepository { is_valid: self.cache.repositories@[
                            i as int].is_valid, ..copy }),
                        );
                    }
                }
                valid.push(copy);
                proof {
                    assert(valid.deep_view() =~= dv0.push(set_valid()(models[i as int]))) by {
                        assert forall|j: int|
                            0 <= j < valid.deep_view().len() implies valid.deep_view()[j]
                            == dv0.push(set_valid()(models[i as int]))[j] by {
                            assert(valid.deep_view()[j] == valid@[j]@);
                        }
                    }
                    assert forall|j: int|
                        0 <= j < valid@.len() implies exists|l: int|
                        0 <= l < i + 1 && (#[trigger] valid@[j]).path@ == models[l].path by {
                        if j < valid@.len() - 1 {
                            let l = choose|l: int|
                                0 <= l < i && valid@[j].path@ == models[l].path;
                        } else {
                            assert(valid@[j].path@ == models[i as int].path);
                        }
                    }
                    assert forall|a: int, b: int|
                        0 <= a < b < valid@.len() implies (#[trigger] valid@[a]).path@ != (
                    #[trigger] valid@[b]).path@ by {
                        if b == valid@.len() - 1 {
                            let l = choose|l: int|
                                0 <= l < i && valid@[a].path@ == models[l].path;
                            assert(models[l].path == self.cache.repositories@[l].path@);
                            assert(models[i as int].path == self.cache.repositories@[
                            i as int].path@);
                        }
                    }
                }
            } else {
                let ghost dv0 = invalid.deep_view();
                invalid.push(rec.path.clone());
                proof {
                    assert(invalid.deep_view() =~= dv0.push(models[i as int].path)) by {
                        assert forall|j: int|
                            0 <= j < invalid.deep_view().len() implies invalid.deep_view()[j]
                            == dv0.push(models[i as int].path)[j] by {
                            assert(invalid.deep_view()[j] == invalid@[j]@);
                        }
                    }
                }
            }
            i += 1;
        }
        proof {
            assert(models.take(models.len() as int) =~= models);
        }
        (valid, invalid)
    }

    /// Drop every record whose VCS marker is gone; the remaining records are
    /// persisted, flagged valid, in a fresh document, exactly as a whole-file
    /// rewrite of only the surviving set. Returns how many records were
    /// dropped; with nothing to drop the store is untouched.
    pub fn cleanup_invalid_repositories(&mut self, existing_paths: &Vec<String>, now: i64) -> (r:
        usize)
        requires
            old(self).inv(),
        ensures
            final(self).inv(),
            r == old(self).repo_models().filter(
                invalid_pred(existing_paths.deep_view()),
            ).len(),
            r == 0 ==> *final(self) == *old(self),
            r > 0 ==> {
                &&& final(self).repo_models() == old(self).repo_models().filter(
                    valid_pred(existing_paths.deep_view()),
                ).map_values(set_valid())
                &&& final(self).roots() == Map::<Seq<char>, ScanPath>::empty()
                &&& final(self).colls() == Map::<Seq<char>, Collection>::empty()
                &&& final(self).last_updated() == now
                &&& final(self).doc().cache_version@ == RepositoryCache::spec_current_version()
            },
            final(self).cache_file_path_view() == old(self).cache_file_path_view(),
    {
        let ghost ex = existing_paths.deep_view();
        let (valid, invalid) = self.validate_repositories(existing_paths);
        let removed = invalid.len();
        proof {
            assert(invalid.deep_view().len() == invalid@.len());
        }
        if removed > 0 {
            self.cache = RepositoryCache {
                repositories: valid,
                scan_paths: Vec::new(),
                collections: Vec::new(),
                last_updated: now,
                cache_version: crate::repo_types::current_version(),
            };
            lru_clear(&mut self.lru_cache);
            proof {
                assert(self.cache.wf()) by {
                    assert(unique_keys(self.cache.repositories@)) by {
                        assert forall|a: int, b: int|
                            0 <= a < b < self.cache.repositories@.len() implies self.cache
                                .repositories@[a].path@ != self.cache.repositories@[b].path@ by {
                            assert(self.cache.repositories.deep_view()[a].path
                                == self.cache.repositories@[a].path@);
                            assert(self.cache.repositories.deep_view()[b].path
                                == self.cache.repositories@[b].path@);
                        }
                    }
                }
                assert(self.lru_ok()) by {
                    assert(forall|k: Seq<char>| !self.lru_view().contains_key(k));
                }
            }
            self.rebuild_optimizations();
        }
        removed
    }

    /// A diagnostic summary: record counts, how many records still resolve on
    /// disk, when the document was last written, and the given on-disk size
    /// of the document file.
    #[verifier::loop_isolation(false)]
    pub fn get_cache_info(&self, existing_paths: &Vec<String>, cache_file_size: u64) -> (r:
        CacheInfo)
        requires
            self.inv(),
        ensures
            r.total_repositories == self.repo_models().len(),
            r.last_updated == self.last_updated(),
            r.cache_file_size == cache_file_size,
            r.valid_repositories == self.repo_models().filter(
                valid_pred(existing_paths.deep_view()),
            ).len(),
            r.invalid_repositories == self.repo_models().filter(
                invalid_pred(existing_paths.deep_view()),
            ).len(),
    {
        let ghost models = self.repo_models();
        let ghost ex = existing_paths.deep_view();
        let mut valid_cnt: u64 = 0;
        let mut invalid_cnt: u64 = 0;
        let mut i: usize = 0;
        proof {
            assert(models.take(0) =~= Seq::<GitRepositoryModel>::empty());
            assert(Seq::<GitRepositoryModel>::empty().filter(valid_pred(ex))
                =~= Seq::<GitRepositoryModel>::empty());
            assert(Seq::<GitRepositoryModel>::empty().filter(invalid_pred(ex))
                =~= Seq::<GitRepositoryModel>::empty());
        }
        while i < self.cache.repositories.len()
            invariant
                i <= self.cache.repositories@.len(),
                valid_cnt == models.take(i as int).filter(valid_pred(ex)).len(),
                invalid_cnt == models.take(i as int).filter(invalid_pred(ex)).len(),
                valid_cnt <= i,
                invalid_cnt <= i,
            decreases self.cache.repositories@.len() - i,
        {
            let ghost taken = models.take(i as int);
            proof {
                assert(models.take(i as int + 1) =~= taken.push(models[i as int]));
                taken.lemma_filter_push(models[i as int], valid_pred(ex));
                taken.lemma_filter_push(models[i as int], invalid_pred(ex));
                taken.lemma_filter_len(valid_pred(ex));
                taken.lemma_filter_len(invalid_pred(ex));
                assert(models[i as int] == self.cache.repositories@[i as int]@);
            }
            let keep = crate::assoc::contains_string(
                existing_paths,
                &self.cache.repositories[i].path,
            );
            proof {
                crate::assoc::lemma_has_str_deep(
                    *existing_paths,
                    self.cache.repositories@[i as int].path@,
                );
                assert(keep == ex.contains(models[i as int].path));
            }
            if keep {
                valid_cnt = valid_cnt + 1;
            } else {
                invalid_cnt = invalid_cnt + 1;
            }
            i += 1;
        }
        proof {
            assert(models.take(models.len() as int) =~= models);
        }
        CacheInfo {
            total_repositories: self.cache.repositories.len() as u64,
            last_updated: self.cache.last_updated,
            cache_file_size,
            valid_repositories: valid_cnt,
            invalid_repositories: invalid_cnt,
        }
    }
}

/// The paths the name index yields for the lower-cased query `q`.
pub open spec fn name_candidates(idx: RepositoryIndex, q: Seq<char>) -> Seq<Seq<char>> {
    idx.by_name@.filter(crate::repo_index::name_matches(q)).map_values(
        |e: (String, String)| e.1@,
    )
}

/// The strings of `a`, in order, that also occur in `b`.
#[verifier::loop_isolation(false)]
fn intersect_strings(a: &Vec<String>, b: &Vec<String>) -> (r: Vec<String>)
    ensures
        forall|p: Seq<char>|
            crate::assoc::has_str(r@, p) <==> crate::assoc::has_str(a@, p)
                && crate::assoc::has_str(b@, p),
{
    let mut r: Vec<String> = Vec::new();
    let mut i: usize = 0;
    while i < a.len()
        invariant
            i <= a@.len(),
            forall|p: Seq<char>|
                crate::assoc::has_str(r@, p) <==> (exists|l: int| 0 <= l < i && a@[l]@ == p)
                    && crate::assoc::has_str(b@, p),
        decreases a@.len() - i,
    {
        let ghost before = r@;
        if crate::assoc::contains_string(b, &a[i]) {
            r.push(a[i].clone());
        }
        proof {
            assert forall|p: Seq<char>|
                crate::assoc::has_str(r@, p) <==> (exists|l: int| 0 <= l < i + 1 && a@[l]@ == p)
                    && crate::assoc::has_str(b@, p) by {
                if crate::assoc::has_str(r@, p) {
                    let j = choose|j: int| 0 <= j < r@.len() && r@[j]@ == p;
                    if j < before.len() {
                        assert(crate::assoc::has_str(before, p));
                    } else {
                        assert(a@[i as int]@ == p);
                    }
                }
                if (exists|l: int| 0 <= l < i + 1 && a@[l]@ == p) && crate::assoc::has_str(
                    b@,
                    p,
                ) {
                    let l = choose|l: int| 0 <= l < i + 1 && a@[l]@ == p;
                    if l < i {
                        assert(crate::assoc::has_str(before, p));
                        let j = choose|j: int| 0 <= j < before.len() && before[j]@ == p;
                        assert(r@[j]@ == p);
                    } else {
                        assert(r@[r@.len() - 1]@ == p);
                    }
                }
            }
        }
        i += 1;
    }
    r
}

impl DataStore {
    /// Whether path `p` satisfies every given search predicate, read off the
    /// indices: a lower-cased name-prefix hit, membership in a size bucket
    /// between the two floors, and membership under the file extension. With
    /// no predicate given, every known repository qualifies.
    pub open spec fn is_candidate(
        self,
        np: Option<Seq<char>>,
        mn: Option<u64>,
        mx: Option<u64>,
        ft: Option<Seq<char>>,
        p: Seq<char>,
    ) -> bool {
        if np is None && !(mn is Some && mx is Some) && ft is None {
            self.repos().contains_key(p)
        } else {
            &&& (np matches Some(q) ==> name_candidates(
                self.index(),
                crate::repo_index::lower_of(q),
            ).contains(p))
            &&& (mn is Some && mx is Some ==> self.index().range_paths(
                crate::repo_index::spec_size_bucket(mn->Some_0) as int,
                crate::repo_index::spec_size_bucket(mx->Some_0) as int,
            ).contains(p))
            &&& (ft matches Some(e) ==> self.index().type_paths(e).contains(p))
        }
    }

    /// Search over the indices: the records of every known repository whose
    /// path satisfies all the given predicates, each exactly once. A size
    /// range applies only when both of its ends are given.
    #[verifier::loop_isolation(false)]
    pub fn advanced_search(
        &self,
        name_prefix: Option<&str>,
        min_size_mb: Option<u64>,
        max_size_mb: Option<u64>,
        file_type: Option<&str>,
    ) -> (r: Vec<GitRepository>)
        requires
            self.inv(),
        ensures
            forall|j: int|
                0 <= j < r.deep_view().len() ==> {
                    &&& self.repos().contains_key((#[trigger] r.deep_view()[j]).path)
                    &&& r.deep_view()[j] == self.repos()[r.deep_view()[j].path]@
                    &&& self.is_candidate(
                        name_prefix.deep_view(),
                        min_size_mb,
                        max_size_mb,
                        file_type.deep_view(),
                        r.deep_view()[j].path,
                    )
                },
            forall|p: Seq<char>|
                self.repos().contains_key(p) && self.is_candidate(
                    name_prefix.deep_view(),
                    min_size_mb,
                    max_size_mb,
                    file_type.deep_view(),
                    p,
                ) ==> exists|j: int|
                    0 <= j < r.deep_view().len() && (#[trigger] r.deep_view()[j]).path == p,
            forall|a: int, b: int|
                0 <= a < b < r.deep_view().len() ==> (#[trigger] r.deep_view()[a]).path != (
                #[trigger] r.deep_view()[b]).path,
    {
        let ghost np = name_prefix.deep_view();
        let ghost ftv = file_type.deep_view();
        let mut cands: Vec<String> = Vec::new();
        let mut first: bool = true;
        if let Some(q) = name_prefix {
            let hits = self.repo_index.find_repositories_by_name_prefix(q);
            proof {
                assert forall|p: Seq<char>|
                    crate::assoc::has_str(hits@, p) <==> name_candidates(
                    self.index(),
                    crate::repo_index::lower_of(q@),
                ).contains(p) by {
                    crate::assoc::lemma_has_str_deep(hits, p);
                }
            }
            cands = hits;
            first = false;
        }
        if min_size_mb.is_some() && max_size_mb.is_some() {
            let mn = match min_size_mb {
                Some(v) => v,
                None => 0,
            };
            let mx = match max_size_mb {
                Some(v) => v,
                None => 0,
            };
            let hits = self.repo_index.find_repositories_by_size_range(mn, mx);
            proof {
                assert forall|p: Seq<char>|
                    crate::assoc::has_str(hits@, p) <==> self.index().range_paths(
                    crate::repo_index::spec_size_bucket(mn) as int,
                    crate::repo_index::spec_size_bucket(mx) as int,
                ).contains(p) by {
                    crate::assoc::lemma_has_str_deep(hits, p);
                }
            }
            if first {
                cands = hits;
                first = false;
            } else {
                cands = intersect_strings(&cands, &hits);
            }
        }
        if let Some(e) = file_type {
            let hits = self.repo_index.find_repositories_by_file_type(e);
            proof {
                assert forall|p: Seq<char>|
                    crate::assoc::has_str(hits@, p) <==> self.index().type_paths(e@).contains(
                    p,
                ) by {
                    crate::assoc::lemma_has_str_deep(hits, p);
                }
            }
            if first {
                cands = hits;
                first = false;
            } else {
                cands = intersect_strings(&cands, &hits);
            }
        }
        if first {
            // No predicate given: every known repository qualifies.
            let mut all: Vec<String> = Vec::new();
            let mut i: usize = 0;
            while i < self.cache.repositories.len()
                invariant
                    i <= self.cache.repositories@.len(),
                    all@.len() == i,
                    forall|j: int|
                        0 <= j < i ==> (#[trigger] all@[j])@ == self.cache.repositories@[j].path@,
                decreases self.cache.repositories@.len() - i,
            {
                all.push(self.cache.repositories[i].path.clone());
                i += 1;
            }
            proof {
                assert forall|p: Seq<char>|
                    crate::assoc::has_str(all@, p) <==> self.repos().contains_key(p) by {
                    crate::assoc::lemma_kmap_contains(self.cache.repositories@, p);
                    if crate::assoc::has_str(all@, p) {
                        let j = choose|j: int| 0 <= j < all@.len() && all@[j]@ == p;
                        assert(self.cache.repositories@[j].path@ == p);
                    }
                    if exists|j: int|
                        0 <= j < self.cache.repositories@.len()
                            && self.cache.repositories@[j].path@ == p {
                        let j = choose|j: int|
                            0 <= j < self.cache.repositories@.len()
                                && self.cache.repositories@[j].path@ == p;
                        assert(all@[j]@ == p);
                    }
                }
            }
            cands = all;
        }
        proof {
            assert forall|p: Seq<char>|
                crate::assoc::has_str(cands@, p) <==> self.is_candidate(np, min_size_mb,
                max_size_mb, ftv, p) || (np is None && !(min_size_mb is Some
                && max_size_mb is Some) && ftv is None && self.repos().contains_key(p)) by {}
        }
        // Resolve the candidate paths through the canonical document, once
        // each; stale index entries that no record carries are dropped here.
        let mut out: Vec<GitRepository> = Vec::new();
        let mut seen: Vec<String> = Vec::new();
        let mut i: usize = 0;
        while i < cands.len()
            invariant
                i <= cands@.len(),
                seen@.len() == out.deep_view().len(),
                forall|j: int|
                    0 <= j < out.deep_view().len() ==> (#[trigger] out.deep_view()[j]).path
                        == seen@[j]@,
                forall|j: int|
                    0 <= j < out.deep_view().len() ==> self.repos().contains_key(
                        (#[trigger] out.deep_view()[j]).path,
                    ) && out.deep_view()[j] == self.repos()[out.deep_view()[j].path]@,
                forall|p: Seq<char>|
                    crate::assoc::has_str(seen@, p) <==> (exists|l: int|
                        0 <= l < i && cands@[l]@ == p) && self.repos().contains_key(p),
                forall|a: int, b: int|
                    0 <= a < b < seen@.len() ==> (#[trigger] seen@[a])@ != (#[trigger] seen@[b])@,
            decreases cands@.len() - i,
        {
            let ghost seen0 = seen@;
            let ghost dv0 = out.deep_view();
            if !crate::assoc::contains_string(&seen, &cands[i]) {
                proof {
                    crate::assoc::lemma_kmap_contains(self.cache.repositories@, cands@[i as int]@);
                }
                match kget(&self.cache.repositories, &cands[i]) {
                    Some(rec) => {
                        proof {
                            crate::repo_types::lemma_repos_value_wf(
                                self.cache,
                                cands@[i as int]@,
                            );
                        }
                        out.push(rec.duplicate());
                        seen.push(cands[i].clone());
                        proof {
                            assert(out.deep_view() =~= dv0.push(
                                self.repos()[cands@[i as int]@]@,
                            )) by {
                                assert forall|j: int|
                                    0 <= j < out.deep_view().len() implies out.deep_view()[j]
                                    == dv0.push(self.repos()[cands@[i as int]@]@)[j] by {
                                    assert(out.deep_view()[j] == out@[j]@);
                                }
                            }
                            assert(self.repos()[cands@[i as int]@].path@ == cands@[i as int]@);
                        }
                    },
                    None => {},
                }
            }
            proof {
                assert forall|p: Seq<char>|
                    crate::assoc::has_str(seen@, p) <==> (exists|l: int|
                        0 <= l < i + 1 && cands@[l]@ == p) && self.repos().contains_key(p) by {
                    if crate::assoc::has_str(seen@, p) {
                        let j = choose|j: int| 0 <= j < seen@.len() && seen@[j]@ == p;
                        if j < seen0.len() {
                            assert(crate::assoc::has_str(seen0, p));
                        } else {
                            assert(cands@[i as int]@ == p);
                        }
                    }
                    if (exists|l: int| 0 <= l < i + 1 && cands@[l]@ == p)
                        && self.repos().contains_key(p) {
                        let l = choose|l: int| 0 <= l < i + 1 && cands@[l]@ == p;
                        if l < i {
                            assert(crate::assoc::has_str(seen0, p));
                            let j = choose|j: int| 0 <= j < seen0.len() && seen0[j]@ == p;
                            assert(seen@[j]@ == p);
                        } else {
                            if !crate::assoc::has_str(seen0, p) {
                                assert(seen@[seen@.len() - 1]@ == p);
                            } else {
                                let j = choose|j: int|
                                    0 <= j < seen0.len() && seen0[j]@ == p;
                                assert(seen@[j]@ == p);
                            }
                        }
                    }
                }
            }
            i += 1;
        }
        proof {
            assert forall|p: Seq<char>|
                self.repos().contains_key(p) && self.is_candidate(np, min_size_mb, max_size_mb,
                ftv, p) implies exists|j: int|
                0 <= j < out.deep_view().len() && (#[trigger] out.deep_view()[j]).path == p by {
                assert(crate::assoc::has_str(cands@, p));
                assert(crate::assoc::has_str(seen@, p));
                let j = choose|j: int| 0 <= j < seen@.len() && seen@[j]@ == p;
                assert(out.deep_view()[j].path == p);
            }
            assert forall|j: int|
                0 <= j < out.deep_view().len() implies self.is_candidate(np, min_size_mb,
                max_size_mb, ftv, out.deep_view()[j].path) by {
                assert(crate::assoc::has_str(seen@, out.deep_view()[j].path)) by {
                    assert(seen@[j]@ == out.deep_view()[j].path);
                }
                assert(crate::assoc::has_str(cands@, out.deep_view()[j].path));
            }
        }
        out
    }
}

impl DataStore {
    /// Serialize the canonical document for persisting; writing the bytes to
    /// the cache file is the caller's business.
    pub fn save_cache(&self) -> (r: Vec<u8>)
        ensures
            r@ == crate::codec::spec_ser_doc(self.doc()@),
            crate::codec::bounded_doc(self.doc()@),
    {
        crate::codec::save_document(&self.cache)
    }
}

} // verus!
