//! Secondary attribute indices: four independent inverted maps from
//! lower-cased name, size bucket, commit-count bucket and file extension to
//! repository paths. All four are derived data, rebuildable from the
//! canonical document, and are updated in lockstep on insert and remove so
//! that a removal exactly undoes the insertion of the same record.

use crate::assoc::{kfind, kget, kmap, kremove, kupsert, unique_keys, Keyed};
use crate::paths::str_starts_with;
use crate::repo_types::{clone_string_vec, GitRepository};
use vstd::prelude::*;
use vstd::string::StringSliceAdditionalSpecFns;

verus! {

/// A name index entry: lower-cased repository name to path.
impl Keyed for (String, String) {
    type SpecKey = Seq<char>;

    type ExecKey = String;

    open spec fn key(&self) -> Seq<char> {
        self.0@
    }

    open spec fn ekey(k: &String) -> Seq<char> {
        k@
    }

    fn key_is(&self, k: &String) -> (r: bool) {
        self.0.eq(k)
    }
}

/// A size-bucket entry: bucket floor in megabytes to paths.
impl Keyed for (u64, Vec<String>) {
    type SpecKey = u64;

    type ExecKey = u64;

    open spec fn key(&self) -> u64 {
        self.0
    }

    open spec fn ekey(k: &u64) -> u64 {
        *k
    }

    fn key_is(&self, k: &u64) -> (r: bool) {
        self.0 == *k
    }
}

/// A commit-count-bucket entry: bucket floor to paths.
impl Keyed for (u32, Vec<String>) {
    type SpecKey = u32;

    type ExecKey = u32;

    open spec fn key(&self) -> u32 {
        self.0
    }

    open spec fn ekey(k: &u32) -> u32 {
        *k
    }

    fn key_is(&self, k: &u32) -> (r: bool) {
        self.0 == *k
    }
}

/// A file-type entry: extension to paths.
impl Keyed for (String, Vec<String>) {
    type SpecKey = Seq<char>;

    type ExecKey = String;

    open spec fn key(&self) -> Seq<char> {
        self.0@
    }

    open spec fn ekey(k: &String) -> Seq<char> {
        k@
    }

    fn key_is(&self, k: &String) -> (r: bool) {
        self.0.eq(k)
    }
}

/// What a repository name or query becomes after case folding.
pub uninterp spec fn lower_of(s: Seq<char>) -> Seq<char>;

/// Relies on str::to_lowercase: the result depends on the characters alone.
#[verifier::external_body]
fn lowercase(s: &str) -> (r: String)
    ensures
        r@ == lower_of(s@),
{
    s.to_lowercase()
}

/// The width of one size bucket, in megabytes.
pub open spec fn spec_size_bucket(mb: u64) -> u64 {
    ((mb / 50) * 50) as u64
}

/// The width of one commit-count bucket.
pub open spec fn spec_commit_bucket(c: u32) -> u32 {
    ((c / 100) * 100) as u32
}

/// Whether the record counts files with extension `e`.
pub open spec fn has_ext(repo: crate::repo_types::GitRepositoryModel, e: Seq<char>) -> bool {
    exists|i: int| 0 <= i < repo.file_types.len() && repo.file_types[i].0 == e
}

/// Keep every path that does not read `p`.
pub open spec fn keep_other(p: Seq<char>) -> spec_fn(Seq<char>) -> bool {
    |q: Seq<char>| q != p
}

/// Inverted indices over the repository records, supporting multi-predicate
/// search. Derived data only: never trusted over the canonical store.
pub struct RepositoryIndex {
    /// Lower-cased full name -> path; one path per name.
    pub by_name: Vec<(String, String)>,
    /// 50 MB size bucket floor -> paths.
    pub by_size_range: Vec<(u64, Vec<String>)>,
    /// 100-commit bucket floor -> paths.
    pub by_commit_count_range: Vec<(u32, Vec<String>)>,
    /// File extension -> paths, one entry per extension a record counts.
    pub by_file_type: Vec<(String, Vec<String>)>,
}

impl RepositoryIndex {
    /// Keys are pairwise distinct in each of the four maps.
    pub open spec fn inv(self) -> bool {
        &&& unique_keys(self.by_name@)
        &&& unique_keys(self.by_size_range@)
        &&& unique_keys(self.by_commit_count_range@)
        &&& unique_keys(self.by_file_type@)
    }

    /// The path filed under a lower-cased name, if any.
    pub open spec fn name_path(self, k: Seq<char>) -> Option<Seq<char>> {
        if kmap(self.by_name@).contains_key(k) {
            Some(kmap(self.by_name@)[k].1@)
        } else {
            None
        }
    }

    /// The paths filed under a size bucket.
    pub open spec fn size_paths(self, b: u64) -> Seq<Seq<char>> {
        if kmap(self.by_size_range@).contains_key(b) {
            kmap(self.by_size_range@)[b].1.deep_view()
        } else {
            Seq::empty()
        }
    }

    /// The paths filed under a commit-count bucket.
    pub open spec fn commit_paths(self, b: u32) -> Seq<Seq<char>> {
        if kmap(self.by_commit_count_range@).contains_key(b) {
            kmap(self.by_commit_count_range@)[b].1.deep_view()
        } else {
            Seq::empty()
        }
    }

    /// The paths filed under a file extension.
    pub open spec fn type_paths(self, e: Seq<char>) -> Seq<Seq<char>> {
        if kmap(self.by_file_type@).contains_key(e) {
            kmap(self.by_file_type@)[e].1.deep_view()
        } else {
            Seq::empty()
        }
    }

    /// How inserting `repo` changes the four observations: its path is filed
    /// under its lower-cased name, appended to its two buckets and to the
    /// bucket of each extension it counts; everything else stays.
    pub open spec fn insert_transforms(pre: Self, post: Self, repo: crate::repo_types::GitRepositoryModel) -> bool {
        &&& post.name_path(lower_of(repo.name)) == Some(repo.path)
        &&& forall|k: Seq<char>|
            k != lower_of(repo.name) ==> post.name_path(k) == pre.name_path(k)
        &&& post.size_paths(spec_size_bucket(repo.size_mb)) == pre.size_paths(
            spec_size_bucket(repo.size_mb),
        ).push(repo.path)
        &&& forall|b: u64|
            b != spec_size_bucket(repo.size_mb) ==> post.size_paths(b) == pre.size_paths(b)
        &&& post.commit_paths(spec_commit_bucket(repo.commit_count)) == pre.commit_paths(
            spec_commit_bucket(repo.commit_count),
        ).push(repo.path)
        &&& forall|b: u32|
            b != spec_commit_bucket(repo.commit_count) ==> post.commit_paths(b)
                == pre.commit_paths(b)
        &&& forall|e: Seq<char>|
            post.type_paths(e) == if has_ext(repo, e) {
                pre.type_paths(e).push(repo.path)
            } else {
                pre.type_paths(e)
            }
    }

    /// How removing `repo` changes the four observations: its lower-cased
    /// name is unfiled, and its path is deleted from its two buckets and from
    /// the bucket of each extension it counts; everything else stays.
    pub open spec fn remove_transforms(pre: Self, post: Self, repo: crate::repo_types::GitRepositoryModel) -> bool {
        &&& post.name_path(lower_of(repo.name)) is None
        &&& forall|k: Seq<char>|
            k != lower_of(repo.name) ==> post.name_path(k) == pre.name_path(k)
        &&& post.size_paths(spec_size_bucket(repo.size_mb)) == pre.size_paths(
            spec_size_bucket(repo.size_mb),
        ).filter(keep_other(repo.path))
        &&& forall|b: u64|
            b != spec_size_bucket(repo.size_mb) ==> post.size_paths(b) == pre.size_paths(b)
        &&& post.commit_paths(spec_commit_bucket(repo.commit_count)) == pre.commit_paths(
            spec_commit_bucket(repo.commit_count),
        ).filter(keep_other(repo.path))
        &&& forall|b: u32|
            b != spec_commit_bucket(repo.commit_count) ==> post.commit_paths(b)
                == pre.commit_paths(b)
        &&& forall|e: Seq<char>|
            post.type_paths(e) == if has_ext(repo, e) {
                pre.type_paths(e).filter(keep_other(repo.path))
            } else {
                pre.type_paths(e)
            }
    }

    /// An empty index.
    pub fn new() -> (r: RepositoryIndex)
        ensures
            r.inv(),
            forall|k: Seq<char>| r.name_path(k) is None,
            forall|b: u64| r.size_paths(b) == Seq::<Seq<char>>::empty(),
            forall|b: u32| r.commit_paths(b) == Seq::<Seq<char>>::empty(),
            forall|e: Seq<char>| r.type_paths(e) == Seq::<Seq<char>>::empty(),
    {
        RepositoryIndex {
            by_name: Vec::new(),
            by_size_range: Vec::new(),
            by_commit_count_range: Vec::new(),
            by_file_type: Vec::new(),
        }
    }

    /// Empty all four indices.
    pub fn clear(&mut self)
        ensures
            final(self).inv(),
            forall|k: Seq<char>| final(self).name_path(k) is None,
            forall|b: u64| final(self).size_paths(b) == Seq::<Seq<char>>::empty(),
            forall|b: u32| final(self).commit_paths(b) == Seq::<Seq<char>>::empty(),
            forall|e: Seq<char>| final(self).type_paths(e) == Seq::<Seq<char>>::empty(),
    {
        self.by_name.clear();
        self.by_size_range.clear();
        self.by_commit_count_range.clear();
        self.by_file_type.clear();
    }

    /// File a record under all four indices.
    #[verifier::loop_isolation(false)]
    pub fn insert_repository(&mut self, repo: &GitRepository)
        requires
            old(self).inv(),
            repo.wf(),
        ensures
            final(self).inv(),
            Self::insert_transforms(*old(self), *final(self), repo@),
    {
        // Name index: one path per lower-cased name, replaced on collision.
        let lowered = lowercase(repo.name.as_str());
        kupsert(&mut self.by_name, &lowered, (lowered.clone(), repo.path.clone()));
        let ghost s1 = *self;
        proof {
            assert forall|k: Seq<char>|
                k != lower_of(repo.name@) implies s1.name_path(k) == old(self).name_path(k) by {}
            assert(s1.name_path(lower_of(repo.name@)) == Some(repo.path@));
        }
        // Size bucket.
        let sb: u64 = (repo.size_mb / 50) * 50;
        match kfind(&self.by_size_range, &sb) {
            Some(i) => {
                let ghost pre = self.by_size_range@;
                let mut entry = self.by_size_range.remove(i);
                proof {
                    crate::assoc::lemma_kmap_index(pre, i as int);
                }
                let ghost dv0 = entry.1.deep_view();
                entry.1.push(repo.path.clone());
                proof {
                    assert(entry.1.deep_view() =~= dv0.push(repo.path@)) by {
                        assert forall|j: int|
                            0 <= j < entry.1.deep_view().len() implies entry.1.deep_view()[j]
                            == dv0.push(repo.path@)[j] by {
                            assert(entry.1.deep_view()[j] == entry.1@[j]@);
                        }
                    }
                }
                self.by_size_range.insert(i, entry);
                proof {
                    assert(self.by_size_range@ =~= pre.update(i as int, self.by_size_range@[
                    i as int]));
                    crate::assoc::lemma_kmap_update(pre, i as int, self.by_size_range@[i as int]);
                }
            },
            None => {
                let mut fresh: Vec<String> = Vec::new();
                fresh.push(repo.path.clone());
                proof {
                    assert(fresh.deep_view() =~= Seq::<Seq<char>>::empty().push(repo.path@));
                    crate::assoc::lemma_kmap_contains(self.by_size_range@, sb);
                    crate::assoc::lemma_kmap_push(self.by_size_range@, (sb, fresh));
                }
                self.by_size_range.push((sb, fresh));
            },
        }
        let ghost s2 = *self;
        proof {
            assert(s2.size_paths(sb) == s1.size_paths(sb).push(repo.path@));
            assert forall|b: u64| b != sb implies s2.size_paths(b) == s1.size_paths(b) by {}
            assert(s2.name_path(lower_of(repo.name@)) == Some(repo.path@));
        }
        // Commit-count bucket.
        let cb: u32 = (repo.commit_count / 100) * 100;
        match kfind(&self.by_commit_count_range, &cb) {
            Some(i) => {
                let ghost pre = self.by_commit_count_range@;
                let mut entry = self.by_commit_count_range.remove(i);
                proof {
                    crate::assoc::lemma_kmap_index(pre, i as int);
                }
                let ghost dv0 = entry.1.deep_view();
                entry.1.push(repo.path.clone());
                proof {
                    assert(entry.1.deep_view() =~= dv0.push(repo.path@)) by {
                        assert forall|j: int|
                            0 <= j < entry.1.deep_view().len() implies entry.1.deep_view()[j]
                            == dv0.push(repo.path@)[j] by {
                            assert(entry.1.deep_view()[j] == entry.1@[j]@);
                        }
                    }
                }
                self.by_commit_count_range.insert(i, entry);
                proof {
                    assert(self.by_commit_count_range@ =~= pre.update(
                        i as int,
                        self.by_commit_count_range@[i as int],
                    ));
                    crate::assoc::lemma_kmap_update(
                        pre,
                        i as int,
                        self.by_commit_count_range@[i as int],
                    );
                }
            },
            None => {
                let mut fresh: Vec<String> = Vec::new();
                fresh.push(repo.path.clone());
                proof {
                    assert(fresh.deep_view() =~= Seq::<Seq<char>>::empty().push(repo.path@));
                    crate::assoc::lemma_kmap_contains(self.by_commit_count_range@, cb);
                    crate::assoc::lemma_kmap_push(self.by_commit_count_range@, (cb, fresh));
                }
                self.by_commit_count_range.push((cb, fresh));
            },
        }
        let ghost s3 = *self;
        proof {
            assert(s3.commit_paths(cb) == s2.commit_paths(cb).push(repo.path@));
            assert forall|b: u32| b != cb implies s3.commit_paths(b) == s2.commit_paths(b) by {}
        }
        // One entry per extension the record counts.
        let mut t: usize = 0;
        while t < repo.file_types.len()
            invariant
                t <= repo.file_types@.len(),
                self.by_name@ == s3.by_name@,
                self.by_size_range@ == s3.by_size_range@,
                self.by_commit_count_range@ == s3.by_commit_count_range@,
                unique_keys(self.by_file_type@),
                forall|e: Seq<char>|
                    self.type_paths(e) == if (exists|x: int|
                        0 <= x < t && repo.file_types@[x].0@ == e) {
                        s3.type_paths(e).push(repo.path@)
                    } else {
                        s3.type_paths(e)
                    },
            decreases repo.file_types@.len() - t,
        {
            let ghost before = *self;
            let ext = &repo.file_types[t].0;
            proof {
                // This extension was not handled yet: keys are distinct.
                assert(!(exists|x: int| 0 <= x < t && repo.file_types@[x].0@ == ext@));
            }
            match kfind(&self.by_file_type, ext) {
                Some(i) => {
                    let ghost pre = self.by_file_type@;
                    let mut entry = self.by_file_type.remove(i);
                    proof {
                        crate::assoc::lemma_kmap_index(pre, i as int);
                    }
                    let ghost dv0 = entry.1.deep_view();
                    entry.1.push(repo.path.clone());
                    proof {
                        assert(entry.1.deep_view() =~= dv0.push(repo.path@)) by {
                            assert forall|j: int|
                                0 <= j < entry.1.deep_view().len() implies entry.1.deep_view()[j]
                                == dv0.push(repo.path@)[j] by {
                                assert(entry.1.deep_view()[j] == entry.1@[j]@);
                            }
                        }
                    }
                    self.by_file_type.insert(i, entry);
                    proof {
                        assert(self.by_file_type@ =~= pre.update(i as int, self.by_file_type@[
                        i as int]));
                        crate::assoc::lemma_kmap_update(pre, i as int, self.by_file_type@[
                        i as int]);
                    }
                },
                None => {
                    let key = ext.clone();
                    let mut fresh: Vec<String> = Vec::new();
                    fresh.push(repo.path.clone());
                    proof {
                        assert(fresh.deep_view() =~= Seq::<Seq<char>>::empty().push(repo.path@));
                        crate::assoc::lemma_kmap_contains(self.by_file_type@, ext@);
                        crate::assoc::lemma_kmap_push(self.by_file_type@, (key, fresh));
                    }
                    self.by_file_type.push((key, fresh));
                },
            }
            proof {
                assert(self.type_paths(ext@) == before.type_paths(ext@).push(repo.path@));
                assert forall|e: Seq<char>|
                    self.type_paths(e) == if (exists|x: int|
                        0 <= x < t + 1 && repo.file_types@[x].0@ == e) {
                        s3.type_paths(e).push(repo.path@)
                    } else {
                        s3.type_paths(e)
                    } by {
                    if e == ext@ {
                        assert(repo.file_types@[t as int].0@ == e);
                    } else {
                        assert(self.type_paths(e) == before.type_paths(e));
                        if exists|x: int| 0 <= x < t + 1 && repo.file_types@[x].0@ == e {
                            let x = choose|x: int|
                                0 <= x < t + 1 && repo.file_types@[x].0@ == e;
                            assert(x < t);
                        }
                    }
                }
            }
            t += 1;
        }
        proof {
            assert forall|e: Seq<char>|
                self.type_paths(e) == if has_ext(repo@, e) {
                    s3.type_paths(e).push(repo.path@)
                } else {
                    s3.type_paths(e)
                } by {
                if has_ext(repo@, e) {
                    let x = choose|x: int|
                        0 <= x < repo@.file_types.len() && repo@.file_types[x].0 == e;
                    assert(repo.file_types@[x].0@ == e);
                    assert(exists|x: int| 0 <= x < t && repo.file_types@[x].0@ == e);
                } else {
                    if exists|x: int| 0 <= x < t && repo.file_types@[x].0@ == e {
                        let x = choose|x: int| 0 <= x < t && repo.file_types@[x].0@ == e;
                        assert(repo@.file_types[x].0 == e);
                    }
                }
            }
        }
    }
}

impl RepositoryIndex {
    /// Unfile a record from all four indices, exactly undoing a prior
    /// insertion of the same record.
    #[verifier::loop_isolation(false)]
    pub fn remove_repository(&mut self, repo: &GitRepository)
        requires
            old(self).inv(),
            repo.wf(),
        ensures
            final(self).inv(),
            Self::remove_transforms(*old(self), *final(self), repo@),
    {
        let lowered = lowercase(repo.name.as_str());
        kremove(&mut self.by_name, &lowered);
        let ghost s1 = *self;
        proof {
            assert forall|k: Seq<char>|
                k != lower_of(repo.name@) implies s1.name_path(k) == old(self).name_path(k) by {}
        }
        // Size bucket.
        let sb: u64 = (repo.size_mb / 50) * 50;
        match kfind(&self.by_size_range, &sb) {
            Some(i) => {
                let ghost pre = self.by_size_range@;
                let mut entry = self.by_size_range.remove(i);
                proof {
                    crate::assoc::lemma_kmap_index(pre, i as int);
                }
                entry.1 = filter_out_path(&entry.1, &repo.path);
                self.by_size_range.insert(i, entry);
                proof {
                    assert(self.by_size_range@ =~= pre.update(i as int, self.by_size_range@[
                    i as int]));
                    crate::assoc::lemma_kmap_update(pre, i as int, self.by_size_range@[i as int]);
                }
            },
            None => {
                proof {
                    crate::assoc::lemma_kmap_contains(self.by_size_range@, sb);
                    assert(Seq::<Seq<char>>::empty().filter(keep_other(repo.path@))
                        =~= Seq::<Seq<char>>::empty());
                }
            },
        }
        let ghost s2 = *self;
        proof {
            assert(s2.size_paths(sb) == s1.size_paths(sb).filter(keep_other(repo.path@)));
            assert forall|b: u64| b != sb implies s2.size_paths(b) == s1.size_paths(b) by {}
        }
        // Commit-count bucket.
        let cb: u32 = (repo.commit_count / 100) * 100;
        match kfind(&self.by_commit_count_range, &cb) {
            Some(i) => {
                let ghost pre = self.by_commit_count_range@;
                let mut entry = self.by_commit_count_range.remove(i);
                proof {
                    crate::assoc::lemma_kmap_index(pre, i as int);
                }
                entry.1 = filter_out_path(&entry.1, &repo.path);
                self.by_commit_count_range.insert(i, entry);
                proof {
                    assert(self.by_commit_count_range@ =~= pre.update(
                        i as int,
                        self.by_commit_count_range@[i as int],
                    ));
                    crate::assoc::lemma_kmap_update(
                        pre,
                        i as int,
                        self.by_commit_count_range@[i as int],
                    );
                }
            },
            None => {
                proof {
                    crate::assoc::lemma_kmap_contains(self.by_commit_count_range@, cb);
                    assert(Seq::<Seq<char>>::empty().filter(keep_other(repo.path@))
                        =~= Seq::<Seq<char>>::empty());
                }
            },
        }
        let ghost s3 = *self;
        proof {
            assert(s3.commit_paths(cb) == s2.commit_paths(cb).filter(keep_other(repo.path@)));
            assert forall|b: u32| b != cb implies s3.commit_paths(b) == s2.commit_paths(b) by {}
        }
        // One deletion per extension the record counts.
        let mut t: usize = 0;
        while t < repo.file_types.len()
            invariant
                t <= repo.file_types@.len(),
                self.by_name@ == s3.by_name@,
                self.by_size_range@ == s3.by_size_range@,
                self.by_commit_count_range@ == s3.by_commit_count_range@,
                unique_keys(self.by_file_type@),
                forall|e: Seq<char>|
                    self.type_paths(e) == if (exists|x: int|
                        0 <= x < t && repo.file_types@[x].0@ == e) {
                        s3.type_paths(e).filter(keep_other(repo.path@))
                    } else {
                        s3.type_paths(e)
                    },
            decreases repo.file_types@.len() - t,
        {
            let ghost before = *self;
            let ext = &repo.file_types[t].0;
            proof {
                assert(!(exists|x: int| 0 <= x < t && repo.file_types@[x].0@ == ext@));
            }
            match kfind(&self.by_file_type, ext) {
                Some(i) => {
                    let ghost pre = self.by_file_type@;
                    let mut entry = self.by_file_type.remove(i);
                    proof {
                        crate::assoc::lemma_kmap_index(pre, i as int);
                    }
                    entry.1 = filter_out_path(&entry.1, &repo.path);
                    self.by_file_type.insert(i, entry);
                    proof {
                        assert(self.by_file_type@ =~= pre.update(i as int, self.by_file_type@[
                        i as int]));
                        crate::assoc::lemma_kmap_update(pre, i as int, self.by_file_type@[
                        i as int]);
                    }
                },
                None => {
                    proof {
                        crate::assoc::lemma_kmap_contains(self.by_file_type@, ext@);
                        assert(Seq::<Seq<char>>::empty().filter(keep_other(repo.path@))
                            =~= Seq::<Seq<char>>::empty());
                    }
                },
            }
            proof {
                assert(self.type_paths(ext@) == before.type_paths(ext@).filter(
                    keep_other(repo.path@),
                ));
                assert forall|e: Seq<char>|
                    self.type_paths(e) == if (exists|x: int|
                        0 <= x < t + 1 && repo.file_types@[x].0@ == e) {
                        s3.type_paths(e).filter(keep_other(repo.path@))
                    } else {
                        s3.type_paths(e)
                    } by {
                    if e == ext@ {
                        assert(repo.file_types@[t as int].0@ == e);
                    } else {
                        assert(self.type_paths(e) == before.type_paths(e));
                        if exists|x: int| 0 <= x < t + 1 && repo.file_types@[x].0@ == e {
                            let x = choose|x: int|
                                0 <= x < t + 1 && repo.file_types@[x].0@ == e;
                            assert(x < t);
                        }
                    }
                }
            }
            t += 1;
        }
        proof {
            assert forall|e: Seq<char>|
                self.type_paths(e) == if has_ext(repo@, e) {
                    s3.type_paths(e).filter(keep_other(repo.path@))
                } else {
                    s3.type_paths(e)
                } by {
                if has_ext(repo@, e) {
                    let x = choose|x: int|
                        0 <= x < repo@.file_types.len() && repo@.file_types[x].0 == e;
                    assert(repo.file_types@[x].0@ == e);
                    assert(exists|x: int| 0 <= x < t && repo.file_types@[x].0@ == e);
                } else {
                    if exists|x: int| 0 <= x < t && repo.file_types@[x].0@ == e {
                        let x = choose|x: int| 0 <= x < t && repo.file_types@[x].0@ == e;
                        assert(repo@.file_types[x].0 == e);
                    }
                }
            }
        }
    }

    /// Paths whose lower-cased stored name begins with the lower-cased query,
    /// in index order.
    #[verifier::loop_isolation(false)]
    pub fn find_repositories_by_name_prefix(&self, prefix: &str) -> (r: Vec<String>)
        ensures
            r.deep_view() == self.by_name@.filter(name_matches(lower_of(prefix@))).map_values(
                |e: (String, String)| e.1@,
            ),
    {
        let lowered = lowercase(prefix);
        let ghost pred = name_matches(lower_of(prefix@));
        let ghost f = |e: (String, String)| e.1@;
        let mut r: Vec<String> = Vec::new();
        let mut i: usize = 0;
        proof {
            broadcast use vstd::seq_lib::group_filter_ensures;

            assert(self.by_name@.take(0) =~= Seq::<(String, String)>::empty());
            assert(Seq::<(String, String)>::empty().filter(pred)
                =~= Seq::<(String, String)>::empty());
            assert(r.deep_view() =~= Seq::<(String, String)>::empty().map_values(f));
        }
        while i < self.by_name.len()
            invariant
                i <= self.by_name@.len(),
                r.deep_view() == self.by_name@.take(i as int).filter(pred).map_values(f),
            decreases self.by_name@.len() - i,
        {
            let ghost taken = self.by_name@.take(i as int);
            proof {
                broadcast use vstd::seq_lib::group_filter_ensures;

                assert(self.by_name@.take(i as int + 1) =~= taken.push(self.by_name@[i as int]));
            }
            let keep = str_starts_with(self.by_name[i].0.as_str(), lowered.as_str());
            proof {
                assert(keep == pred(self.by_name@[i as int]));
            }
            if keep {
                let ghost dv0 = r.deep_view();
                r.push(self.by_name[i].1.clone());
                proof {
                    assert(r.deep_view() =~= dv0.push(self.by_name@[i as int].1@)) by {
                        assert forall|j: int|
                            0 <= j < r.deep_view().len() implies r.deep_view()[j] == dv0.push(
                            self.by_name@[i as int].1@,
                        )[j] by {
                            assert(r.deep_view()[j] == r@[j]@);
                        }
                    }
                    taken.lemma_filter_push(self.by_name@[i as int], pred);
                    assert(taken.push(self.by_name@[i as int]).filter(pred).map_values(f)
                        =~= taken.filter(pred).map_values(f).push(self.by_name@[i as int].1@));
                }
            } else {
                proof {
                    taken.lemma_filter_push(self.by_name@[i as int], pred);
                }
            }
            i += 1;
        }
        proof {
            assert(self.by_name@.take(self.by_name@.len() as int) =~= self.by_name@);
        }
        r
    }

    /// Paths filed under one file extension, in bucket order.
    pub fn find_repositories_by_file_type(&self, file_type: &str) -> (r: Vec<String>)
        requires
            self.inv(),
        ensures
            r.deep_view() == self.type_paths(file_type@),
    {
        let key: String = file_type.to_owned();
        match kget(&self.by_file_type, &key) {
            Some(entry) => clone_string_vec(&entry.1),
            None => {
                let empty: Vec<String> = Vec::new();
                proof {
                    assert(empty.deep_view() =~= Seq::<Seq<char>>::empty());
                }
                empty
            },
        }
    }

    /// The paths of every size bucket whose floor lies between the floors of
    /// `min_mb` and `max_mb`, inclusive, in bucket order.
    #[verifier::loop_isolation(false)]
    pub fn find_repositories_by_size_range(&self, min_mb: u64, max_mb: u64) -> (r: Vec<String>)
        requires
            self.inv(),
        ensures
            r.deep_view() == self.range_paths(
                spec_size_bucket(min_mb) as int,
                spec_size_bucket(max_mb) as int,
            ),
    {
        let lo: u64 = (min_mb / 50) * 50;
        let hi: u64 = (max_mb / 50) * 50;
        let mut r: Vec<String> = Vec::new();
        if lo > hi {
            return r;
        }
        let mut b: u64 = lo;
        loop
            invariant
                lo <= b <= hi,
                b % 50 == lo % 50,
                self.range_paths(lo as int, hi as int) == r.deep_view() + self.range_paths(
                    b as int,
                    hi as int,
                ),
            decreases hi - b,
        {
            let ghost dv0 = r.deep_view();
            match kget(&self.by_size_range, &b) {
                Some(entry) => {
                    let mut part = clone_string_vec(&entry.1);
                    r.append(&mut part);
                },
                None => {},
            }
            proof {
                assert(r.deep_view() =~= dv0 + self.size_paths(b)) by {
                    assert forall|j: int|
                        0 <= j < r.deep_view().len() implies r.deep_view()[j] == (dv0
                        + self.size_paths(b))[j] by {
                        assert(r.deep_view()[j] == r@[j]@);
                    }
                }
                assert(self.range_paths(b as int, hi as int) == self.size_paths(b)
                    + self.range_paths(b as int + 50, hi as int));
                assert(self.range_paths(lo as int, hi as int) == r.deep_view()
                    + self.range_paths(b as int + 50, hi as int)) by {
                    assert(dv0 + (self.size_paths(b) + self.range_paths(b as int + 50, hi as int))
                        =~= (dv0 + self.size_paths(b)) + self.range_paths(
                        b as int + 50,
                        hi as int,
                    ));
                }
            }
            if hi - b < 50 {
                proof {
                    assert(self.range_paths(b as int + 50, hi as int)
                        =~= Seq::<Seq<char>>::empty());
                    assert(r.deep_view() + Seq::<Seq<char>>::empty() =~= r.deep_view());
                }
                break ;
            }
            b = b + 50;
        }
        r
    }

    /// The concatenation of the size buckets with floors `b`, `b + 50`, ...
    /// up to `hi`.
    pub open spec fn range_paths(self, b: int, hi: int) -> Seq<Seq<char>>
        decreases hi + 50 - b,
    {
        if b > hi || b < 0 || hi + 50 - b < 0 {
            Seq::empty()
        } else {
            self.size_paths(b as u64) + self.range_paths(b + 50, hi)
        }
    }
}

/// Whether the entry's stored name starts with the query `q`.
pub open spec fn name_matches(q: Seq<char>) -> spec_fn((String, String)) -> bool {
    |e: (String, String)| crate::paths::str_prefix(q, e.0@)
}

/// Keep every string that does not read `p`.
pub fn filter_out_path(v: &Vec<String>, p: &String) -> (r: Vec<String>)
    ensures
        r.deep_view() == v.deep_view().filter(keep_other(p@)),
{
    let mut r: Vec<String> = Vec::new();
    let mut i: usize = 0;
    proof {
        broadcast use vstd::seq_lib::group_filter_ensures;

        assert(v.deep_view().take(0) =~= Seq::<Seq<char>>::empty());
        assert(Seq::<Seq<char>>::empty().filter(keep_other(p@)) =~= Seq::<Seq<char>>::empty());
        assert(r.deep_view() =~= Seq::<Seq<char>>::empty());
    }
    while i < v.len()
        invariant
            i <= v@.len(),
            r.deep_view() == v.deep_view().take(i as int).filter(keep_other(p@)),
        decreases v@.len() - i,
    {
        let ghost taken = v.deep_view().take(i as int);
        proof {
            broadcast use vstd::seq_lib::group_filter_ensures;

            assert(v.deep_view().take(i as int + 1) =~= taken.push(v@[i as int]@));
        }
        if !v[i].eq(p) {
            let ghost dv0 = r.deep_view();
            r.push(v[i].clone());
            proof {
                assert(r.deep_view() =~= dv0.push(v@[i as int]@)) by {
                    assert forall|j: int|
                        0 <= j < r.deep_view().len() implies r.deep_view()[j] == dv0.push(
                        v@[i as int]@,
                    )[j] by {
                        assert(r.deep_view()[j] == r@[j]@);
                    }
                }
                assert(keep_other(p@)(v@[i as int]@));
                taken.lemma_filter_push(v@[i as int]@, keep_other(p@));
            }
        } else {
            proof {
                assert(!keep_other(p@)(v@[i as int]@));
                taken.lemma_filter_push(v@[i as int]@, keep_other(p@));
            }
        }
        i += 1;
    }
    proof {
        assert(v.deep_view().take(v@.len() as int) =~= v.deep_view());
    }
    r
}

/// Filtering changes nothing when every element passes.
proof fn lemma_filter_all(s: Seq<Seq<char>>, f: spec_fn(Seq<char>) -> bool)
    requires
        forall|i: int| 0 <= i < s.len() ==> f(#[trigger] s[i]),
    ensures
        s.filter(f) == s,
    decreases s.len(),
{
    if s.len() == 0 {
        assert(s.filter(f) =~= s);
    } else {
        lemma_filter_all(s.drop_last(), f);
        assert(s.drop_last().push(s.last()) =~= s);
        s.drop_last().lemma_filter_push(s.last(), f);
        assert(f(s.last()));
    }
}

/// Index symmetry: filing a record whose name and path are not yet present
/// and then unfiling it leaves all four indices observably as they were.
pub proof fn lemma_index_insert_remove_symmetry(
    pre: RepositoryIndex,
    mid: RepositoryIndex,
    post: RepositoryIndex,
    repo: crate::repo_types::GitRepositoryModel,
)
    requires
        RepositoryIndex::insert_transforms(pre, mid, repo),
        RepositoryIndex::remove_transforms(mid, post, repo),
        pre.name_path(lower_of(repo.name)) is None,
        !pre.size_paths(spec_size_bucket(repo.size_mb)).contains(repo.path),
        !pre.commit_paths(spec_commit_bucket(repo.commit_count)).contains(repo.path),
        forall|e: Seq<char>| !(#[trigger] pre.type_paths(e)).contains(repo.path),
    ensures
        forall|k: Seq<char>| post.name_path(k) == pre.name_path(k),
        forall|b: u64| post.size_paths(b) == pre.size_paths(b),
        forall|b: u32| post.commit_paths(b) == pre.commit_paths(b),
        forall|e: Seq<char>| post.type_paths(e) == pre.type_paths(e),
{
    broadcast use vstd::seq_lib::group_filter_ensures;

    let path = repo.path;
    let f = keep_other(path);
    assert forall|b: u64| post.size_paths(b) == pre.size_paths(b) by {
        if b == spec_size_bucket(repo.size_mb) {
            let s = pre.size_paths(b);
            assert(forall|i: int| 0 <= i < s.len() ==> f(#[trigger] s[i])) by {
                assert(forall|i: int| 0 <= i < s.len() ==> s[i] != path);
            }
            assert(!f(path));
            s.lemma_filter_push(path, f);
            lemma_filter_all(s, f);
        }
    }
    assert forall|b: u32| post.commit_paths(b) == pre.commit_paths(b) by {
        if b == spec_commit_bucket(repo.commit_count) {
            let s = pre.commit_paths(b);
            assert(forall|i: int| 0 <= i < s.len() ==> f(#[trigger] s[i])) by {
                assert(forall|i: int| 0 <= i < s.len() ==> s[i] != path);
            }
            assert(!f(path));
            s.lemma_filter_push(path, f);
            lemma_filter_all(s, f);
        }
    }
    assert forall|e: Seq<char>| post.type_paths(e) == pre.type_paths(e) by {
        if has_ext(repo, e) {
            let s = pre.type_paths(e);
            assert(forall|i: int| 0 <= i < s.len() ==> f(#[trigger] s[i])) by {
                assert(forall|i: int| 0 <= i < s.len() ==> s[i] != path);
            }
            assert(!f(path));
            s.lemma_filter_push(path, f);
            lemma_filter_all(s, f);
        }
    }
}

} // verus!
