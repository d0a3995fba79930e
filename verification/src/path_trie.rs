//! A prefix index over repository filesystem paths. Each edge of the tree is
//! one path segment; each node holds the full paths that terminate exactly
//! there. Matching is by whole segment, never by raw string prefix, so
//! `/home/user` does not match `/home/userx`.

use crate::assoc::{distinct_views, has_str};
use crate::paths::{seg_split, split_segments};
use vstd::prelude::*;
use vstd::std_specs::cmp::PartialEqSpec;
use vstd::string::StringSliceAdditionalSpecFns;

verus! {

/// The segments of a path string, over its UTF-8 encoding.
pub open spec fn path_segs(p: Seq<char>) -> Seq<Seq<u8>> {
    seg_split(vstd::utf8::encode_utf8(p))
}

/// One node of the trie: children keyed by path segment, and the repository
/// paths that terminate at this node.
pub struct TrieNode {
    children: Vec<(Vec<u8>, TrieNode)>,
    repositories: Vec<String>,
}

impl TrieNode {
    /// Whether path `p` is stored at this node or anywhere below it.
    pub closed spec fn subtree_contains(self, p: Seq<char>) -> bool
        decreases self,
    {
        has_str(self.repositories@, p) || exists|i: int|
            0 <= i < self.children@.len() && (#[trigger] self.children@[i].1).subtree_contains(p)
    }

    /// Well-formedness of a node standing at segment prefix `pre`: every path
    /// stored here splits exactly into `pre`, stored paths and child keys are
    /// pairwise distinct, and each child is well-formed one segment deeper.
    pub closed spec fn wf(self, pre: Seq<Seq<u8>>) -> bool
        decreases self,
    {
        &&& forall|k: int|
            0 <= k < self.repositories@.len() ==> path_segs(
                (#[trigger] self.repositories@[k])@,
            ) == pre
        &&& distinct_views(self.repositories@)
        &&& forall|i: int, j: int|
            0 <= i < j < self.children@.len() ==> self.children@[i].0@ != self.children@[j].0@
        &&& forall|i: int|
            0 <= i < self.children@.len() ==> (#[trigger] self.children@[i]).1.wf(
                pre.push(self.children@[i].0@),
            )
    }

    /// A fresh node with no children and no stored paths.
    pub fn new() -> (r: TrieNode)
        ensures
            forall|p: Seq<char>| !r.subtree_contains(p),
            forall|pre: Seq<Seq<u8>>| r.wf(pre),
    {
        TrieNode { children: Vec::new(), repositories: Vec::new() }
    }
}

/// Every path stored below a well-formed node splits into an extension of the
/// node's own segment prefix.
proof fn lemma_wf_placement(n: TrieNode, pre: Seq<Seq<u8>>, p: Seq<char>)
    requires
        n.wf(pre),
        n.subtree_contains(p),
    ensures
        pre.is_prefix_of(path_segs(p)),
    decreases n,
{
    if has_str(n.repositories@, p) {
        let k = choose|k: int| 0 <= k < n.repositories@.len() && n.repositories@[k]@ == p;
        assert(path_segs(p) == pre);
        assert(pre =~= path_segs(p).subrange(0, pre.len() as int));
    } else {
        let i = choose|i: int|
            0 <= i < n.children@.len() && (#[trigger] n.children@[i].1).subtree_contains(p);
        lemma_wf_placement(n.children@[i].1, pre.push(n.children@[i].0@), p);
        assert(pre.is_prefix_of(pre.push(n.children@[i].0@))) by {
            assert(pre =~= pre.push(n.children@[i].0@).subrange(0, pre.len() as int));
        }
        assert(pre =~= path_segs(p).subrange(0, pre.len() as int));
    }
}

/// Where a path can sit below a well-formed node: at the node itself when its
/// segments are exactly the node's prefix, else only under the child keyed by
/// its next segment.
proof fn lemma_wf_localize(n: TrieNode, pre: Seq<Seq<u8>>, p: Seq<char>)
    requires
        n.wf(pre),
        n.subtree_contains(p),
    ensures
        path_segs(p) == pre ==> has_str(n.repositories@, p),
        path_segs(p) != pre ==> pre.len() < path_segs(p).len() && exists|i: int|
            0 <= i < n.children@.len() && (#[trigger] n.children@[i]).0@ == path_segs(p)[pre.len() as int]
                && n.children@[i].1.subtree_contains(p),
    decreases n,
{
    lemma_wf_placement(n, pre, p);
    if has_str(n.repositories@, p) {
        let k = choose|k: int| 0 <= k < n.repositories@.len() && n.repositories@[k]@ == p;
        assert(path_segs(p) == pre);
    } else {
        let i = choose|i: int|
            0 <= i < n.children@.len() && (#[trigger] n.children@[i].1).subtree_contains(p);
        let ck = pre.push(n.children@[i].0@);
        lemma_wf_placement(n.children@[i].1, ck, p);
        assert(path_segs(p)[pre.len() as int] == ck[pre.len() as int]) by {
            assert(ck.subrange(0, ck.len() as int)[pre.len() as int] == ck[pre.len() as int]);
        }
        assert(path_segs(p) != pre);
    }
}

/// Whether two byte vectors hold the same bytes.
fn seg_eq(a: &Vec<u8>, b: &Vec<u8>) -> (r: bool)
    ensures
        r == (a@ == b@),
{
    let r = a.eq(b);
    proof {
        if r {
            assert(a@ =~= b@);
        } else {
            if a@ == b@ {
                assert(a.eq_spec(b));
            }
        }
    }
    r
}

/// The prefix index itself: a tree rooted at the empty segment prefix.
pub struct PathTrie {
    root: TrieNode,
}

impl PathTrie {
    /// Whether the trie holds path `p`.
    pub closed spec fn has_path(self, p: Seq<char>) -> bool {
        self.root.subtree_contains(p)
    }

    /// The structural invariant of the whole trie.
    pub closed spec fn wf(self) -> bool {
        self.root.wf(Seq::empty())
    }

    /// An empty trie.
    pub fn new() -> (r: PathTrie)
        ensures
            r.wf(),
            forall|p: Seq<char>| !r.has_path(p),
    {
        PathTrie { root: TrieNode::new() }
    }

    /// Reset to an empty trie; used to rebuild from scratch.
    pub fn clear(&mut self)
        ensures
            final(self).wf(),
            forall|p: Seq<char>| !final(self).has_path(p),
    {
        self.root = TrieNode::new();
    }

    /// Insert a repository path: walk or create one node per segment and
    /// store the full path at the terminal node.
    pub fn insert_repository(&mut self, path: &str)
        requires
            old(self).wf(),
            !old(self).has_path(path@),
        ensures
            final(self).wf(),
            forall|p: Seq<char>|
                final(self).has_path(p) <==> old(self).has_path(p) || p == path@,
    {
        let segs = split_segments(path);
        let owned: String = path.to_owned();
        proof {
            assert(segs@.map_values(|v: Vec<u8>| v@).take(0) =~= Seq::<Seq<u8>>::empty());
        }
        node_insert(&mut self.root, &segs, 0, owned, Ghost(Seq::empty()));
    }

    /// Delete a repository path from its terminal node, if present. Nodes are
    /// not pruned; that costs memory only, never correctness.
    pub fn remove_repository(&mut self, path: &str)
        requires
            old(self).wf(),
        ensures
            final(self).wf(),
            forall|p: Seq<char>|
                final(self).has_path(p) <==> old(self).has_path(p) && p != path@,
    {
        let segs = split_segments(path);
        proof {
            assert(segs@.map_values(|v: Vec<u8>| v@).take(0) =~= Seq::<Seq<u8>>::empty());
        }
        node_remove(&mut self.root, &segs, 0, path, Ghost(Seq::empty()));
    }

    /// All stored paths lying at or below `prefix`, by whole segments: a path
    /// is returned exactly when its segment list extends `prefix`'s.
    #[verifier::loop_isolation(false)]
    pub fn find_repositories_under_path(&self, prefix: &str) -> (r: Vec<String>)
        requires
            self.wf(),
        ensures
            distinct_views(r@),
            forall|j: int|
                0 <= j < r@.len() ==> self.has_path((#[trigger] r@[j])@) && seg_split(
                    prefix.spec_bytes(),
                ).is_prefix_of(path_segs(r@[j]@)),
            forall|p: Seq<char>|
                self.has_path(p) && seg_split(prefix.spec_bytes()).is_prefix_of(path_segs(p))
                    ==> has_str(r@, p),
    {
        let segs = split_segments(prefix);
        let ghost qs: Seq<Seq<u8>> = seg_split(prefix.spec_bytes());
        let mut cur: &TrieNode = &self.root;
        let mut d: usize = 0;
        proof {
            assert(qs.take(0) =~= Seq::<Seq<u8>>::empty());
        }
        while d < segs.len()
            invariant
                d <= segs@.len(),
                qs == segs@.map_values(|v: Vec<u8>| v@),
                cur.wf(qs.take(d as int)),
                forall|p: Seq<char>| cur.subtree_contains(p) ==> self.has_path(p),
                forall|p: Seq<char>|
                    self.has_path(p) && qs.is_prefix_of(path_segs(p)) ==> cur.subtree_contains(p),
                self.wf(),
            decreases segs@.len() - d,
        {
            let ghost pre = qs.take(d as int);
            let mut i: usize = 0;
            let mut found: Option<usize> = None;
            while i < cur.children.len()
                invariant
                    i <= cur.children@.len(),
                    found matches Some(fi) ==> fi < cur.children@.len() && cur.children@[
                        fi as int].0@ == segs@[d as int]@,
                    found is None ==> forall|j: int|
                        0 <= j < i ==> cur.children@[j].0@ != segs@[d as int]@,
                    d < segs@.len(),
                decreases cur.children@.len() - i,
            {
                if seg_eq(&cur.children[i].0, &segs[d]) {
                    found = Some(i);
                    break ;
                }
                i += 1;
            }
            match found {
                Some(fi) => {
                    proof {
                        assert(qs[d as int] == segs@[d as int]@);
                        assert(pre.push(cur.children@[fi as int].0@) =~= qs.take(d as int + 1));
                        assert forall|p: Seq<char>|
                            self.has_path(p) && qs.is_prefix_of(path_segs(p)) implies cur.children@[
                            fi as int].1.subtree_contains(p) by {
                            lemma_wf_localize(*cur, pre, p);
                            assert(path_segs(p).len() >= qs.len());
                            assert(pre.len() < qs.len());
                            assert(path_segs(p)[pre.len() as int] == qs[pre.len() as int]) by {
                                assert(path_segs(p).subrange(0, qs.len() as int)[pre.len() as int]
                                    == path_segs(p)[pre.len() as int]);
                            }
                            assert(path_segs(p) != pre) by {
                                assert(path_segs(p).len() > pre.len());
                            }
                            let j = choose|j: int|
                                0 <= j < cur.children@.len() && (#[trigger] cur.children@[j]).0@
                                    == path_segs(p)[pre.len() as int] && cur.children@[
                                j].1.subtree_contains(p);
                            assert(j == fi);
                        }
                    }
                    cur = &cur.children[fi].1;
                },
                None => {
                    // No child carries the next segment, so nothing extends
                    // the query prefix.
                    proof {
                        assert forall|p: Seq<char>|
                            self.has_path(p) && qs.is_prefix_of(path_segs(p)) implies false by {
                            lemma_wf_localize(*cur, pre, p);
                            assert(path_segs(p).len() >= qs.len());
                            assert(path_segs(p)[pre.len() as int] == qs[pre.len() as int]) by {
                                assert(path_segs(p).subrange(0, qs.len() as int)[pre.len() as int]
                                    == path_segs(p)[pre.len() as int]);
                            }
                            assert(path_segs(p) != pre) by {
                                assert(path_segs(p).len() > pre.len());
                            }
                        }
                    }
                    let r: Vec<String> = Vec::new();
                    return r;
                },
            }
            d += 1;
        }
        proof {
            assert(qs.take(d as int) =~= qs);
        }
        let mut out: Vec<String> = Vec::new();
        collect_into(cur, &mut out, Ghost(qs));
        proof {
            assert forall|j: int| 0 <= j < out@.len() implies self.has_path((#[trigger] out@[j])@)
                && qs.is_prefix_of(path_segs(out@[j]@)) by {
                assert(has_str(out@, out@[j]@));
                assert(cur.subtree_contains(out@[j]@));
                lemma_wf_placement(*cur, qs, out@[j]@);
            }
        }
        out
    }
}

/// Insert `path` under node `n`, which stands at prefix `pre`, the first `d`
/// segments of `path`'s own segment list `segs`.
#[verifier::loop_isolation(false)]
fn node_insert(
    n: &mut TrieNode,
    segs: &Vec<Vec<u8>>,
    d: usize,
    path: String,
    Ghost(pre): Ghost<Seq<Seq<u8>>>,
)
    requires
        old(n).wf(pre),
        !old(n).subtree_contains(path@),
        d <= segs@.len(),
        pre == segs@.map_values(|v: Vec<u8>| v@).take(d as int),
        path_segs(path@) == segs@.map_values(|v: Vec<u8>| v@),
    ensures
        final(n).wf(pre),
        forall|p: Seq<char>|
            final(n).subtree_contains(p) <==> old(n).subtree_contains(p) || p == path@,
    decreases segs@.len() - d,
{
    let ghost full = segs@.map_values(|v: Vec<u8>| v@);
    if d == segs.len() {
        proof {
            assert(pre =~= full);
        }
        n.repositories.push(path);
        proof {
            assert forall|p: Seq<char>|
                n.subtree_contains(p) <==> old(n).subtree_contains(p) || p == path@ by {
                assert(n.children@ == old(n).children@);
                if has_str(n.repositories@, p) {
                    let k = choose|k: int|
                        0 <= k < n.repositories@.len() && n.repositories@[k]@ == p;
                    if k < old(n).repositories@.len() {
                        assert(has_str(old(n).repositories@, p));
                    } else {
                        assert(p == path@);
                    }
                }
                if has_str(old(n).repositories@, p) {
                    let k = choose|k: int|
                        0 <= k < old(n).repositories@.len() && old(n).repositories@[k]@ == p;
                    assert(n.repositories@[k]@ == p);
                }
                if p == path@ {
                    assert(n.repositories@[n.repositories@.len() - 1]@ == p);
                }
            }
        }
    } else {
        let mut i: usize = 0;
        let mut found: Option<usize> = None;
        while i < n.children.len()
            invariant
                i <= n.children@.len(),
                found matches Some(fi) ==> fi < n.children@.len() && n.children@[fi as int].0@
                    == segs@[d as int]@,
                found is None ==> forall|j: int|
                    0 <= j < i ==> n.children@[j].0@ != segs@[d as int]@,
                d < segs@.len(),
            decreases n.children@.len() - i,
        {
            if seg_eq(&n.children[i].0, &segs[d]) {
                found = Some(i);
                break ;
            }
            i += 1;
        }
        let ghost child_pre = pre.push(full[d as int]);
        proof {
            assert(child_pre =~= full.take(d as int + 1));
        }
        let fi: usize = match found {
            Some(fi) => fi,
            None => {
                let fresh = TrieNode::new();
                let mut key: Vec<u8> = Vec::new();
                let seg = &segs[d];
                let mut b: usize = 0;
                while b < seg.len()
                    invariant
                        b <= seg@.len(),
                        key@ == seg@.take(b as int),
                        seg@ == segs@[d as int]@,
                        d < segs@.len(),
                    decreases seg@.len() - b,
                {
                    key.push(seg[b]);
                    proof {
                        assert(key@ =~= seg@.take(b as int + 1));
                    }
                    b += 1;
                }
                proof {
                    assert(key@ =~= segs@[d as int]@);
                }
                let idx = n.children.len();
                n.children.push((key, fresh));
                proof {
                    assert forall|p: Seq<char>|
                        n.subtree_contains(p) <==> old(n).subtree_contains(p) by {
                        if n.subtree_contains(p) {
                            if !has_str(n.repositories@, p) {
                                let j = choose|j: int|
                                    0 <= j < n.children@.len() && (#[trigger] n.children@[
                                    j].1).subtree_contains(p);
                                if j < old(n).children@.len() {
                                    assert(old(n).children@[j].1.subtree_contains(p));
                                }
                            }
                        }
                        if old(n).subtree_contains(p) {
                            if !has_str(old(n).repositories@, p) {
                                let j = choose|j: int|
                                    0 <= j < old(n).children@.len() && (#[trigger] old(
                                        n,
                                    ).children@[j].1).subtree_contains(p);
                                assert(n.children@[j].1.subtree_contains(p));
                            }
                        }
                    }
                    assert(n.wf(pre)) by {
                        assert forall|ii: int|
                            0 <= ii < n.children@.len() implies (#[trigger] n.children@[
                        ii]).1.wf(pre.push(n.children@[ii].0@)) by {
                            if ii < old(n).children@.len() {
                                assert(old(n).children@[ii].1.wf(
                                    pre.push(old(n).children@[ii].0@),
                                ));
                            }
                        }
                    }
                }
                idx
            },
        };
        // Recurse into the child owned, then put it back in place.
        let ghost before = *n;
        let mut entry = n.children.remove(fi);
        proof {
            assert(entry == before.children@[fi as int]);
            assert(entry.1.wf(pre.push(before.children@[fi as int].0@)));
            assert(child_pre == pre.push(before.children@[fi as int].0@));
            if entry.1.subtree_contains(path@) {
                assert(before.subtree_contains(path@));
            }
        }
        node_insert(&mut entry.1, segs, d + 1, path, Ghost(child_pre));
        n.children.insert(fi, entry);
        proof {
            assert(n.children@ =~= before.children@.update(fi as int, n.children@[fi as int]));
            assert(n.children@[fi as int].0@ == before.children@[fi as int].0@);
            assert(n.repositories@ == before.repositories@);
            assert(n.wf(pre)) by {
                assert forall|ii: int, jj: int|
                    0 <= ii < jj < n.children@.len() implies n.children@[ii].0@ != n.children@[
                jj].0@ by {
                    assert(before.children@[ii].0@ != before.children@[jj].0@);
                    assert(n.children@[ii].0@ == before.children@[ii].0@);
                    assert(n.children@[jj].0@ == before.children@[jj].0@);
                }
                assert forall|ii: int|
                    0 <= ii < n.children@.len() implies (#[trigger] n.children@[ii]).1.wf(
                    pre.push(n.children@[ii].0@),
                ) by {
                    if ii != fi {
                        assert(n.children@[ii] == before.children@[ii]);
                    }
                }
            }
            assert forall|p: Seq<char>|
                n.subtree_contains(p) <==> before.subtree_contains(p) || p == path@ by {
                if n.subtree_contains(p) {
                    if !has_str(n.repositories@, p) {
                        let j = choose|j: int|
                            0 <= j < n.children@.len() && (#[trigger] n.children@[
                            j].1).subtree_contains(p);
                        if j != fi {
                            assert(before.children@[j].1.subtree_contains(p));
                        }
                    }
                }
                if before.subtree_contains(p) {
                    if !has_str(before.repositories@, p) {
                        let j = choose|j: int|
                            0 <= j < before.children@.len() && (#[trigger] before.children@[
                            j].1).subtree_contains(p);
                        if j != fi {
                            assert(n.children@[j].1.subtree_contains(p));
                        } else {
                            assert(n.children@[fi as int].1.subtree_contains(p));
                        }
                    }
                }
                if p == path@ {
                    assert(n.children@[fi as int].1.subtree_contains(p));
                }
            }
        }
    }
}

/// Remove `path` from the terminal node below `n`, which stands at prefix
/// `pre`, the first `d` segments of `path`'s segment list `segs`. Missing
/// segments mean the path was never stored.
#[verifier::loop_isolation(false)]
#[verifier::rlimit(40)]
#[verifier::spinoff_prover]
fn node_remove(
    n: &mut TrieNode,
    segs: &Vec<Vec<u8>>,
    d: usize,
    path: &str,
    Ghost(pre): Ghost<Seq<Seq<u8>>>,
)
    requires
        old(n).wf(pre),
        d <= segs@.len(),
        pre == segs@.map_values(|v: Vec<u8>| v@).take(d as int),
        path_segs(path@) == segs@.map_values(|v: Vec<u8>| v@),
    ensures
        final(n).wf(pre),
        forall|p: Seq<char>|
            #![trigger final(n).subtree_contains(p)]
            #![trigger old(n).subtree_contains(p)]
            final(n).subtree_contains(p) <==> old(n).subtree_contains(p) && p != path@,
    decreases segs@.len() - d,
{
    let ghost full = segs@.map_values(|v: Vec<u8>| v@);
    if d == segs.len() {
        proof {
            assert(pre =~= full);
        }
        // Keep every stored path but `path` itself.
        let owned: String = path.to_owned();
        let mut kept: Vec<String> = Vec::new();
        let mut k: usize = 0;
        let ghost orig = n.repositories@;
        while k < n.repositories.len()
            invariant
                k <= orig.len(),
                n.repositories@ == orig,
                forall|p: Seq<char>|
                    has_str(kept@, p) <==> (exists|j: int|
                        0 <= j < k && orig[j]@ == p) && p != path@,
                distinct_views(kept@),
                forall|j: int|
                    0 <= j < kept@.len() ==> exists|l: int|
                        0 <= l < orig.len() && orig[l]@ == (#[trigger] kept@[j])@,
            decreases orig.len() - k,
        {
            let keep = !n.repositories[k].eq(&owned);
            if keep {
                let ghost kept_before = kept@;
                kept.push(n.repositories[k].clone());
                proof {
                    assert(kept@[kept@.len() - 1]@ == orig[k as int]@);
                    assert(distinct_views(kept@)) by {
                        assert forall|a: int, b: int|
                            0 <= a < b < kept@.len() implies kept@[a]@ != kept@[b]@ by {
                            if b == kept@.len() - 1 {
                                assert(kept@[a] == kept_before[a]);
                                assert(has_str(kept_before, kept@[a]@));
                                let j2 = choose|j2: int| 0 <= j2 < k && orig[j2]@ == kept@[a]@;
                            }
                        }
                    }
                    assert forall|p: Seq<char>|
                        has_str(kept@, p) <==> (exists|j: int|
                            0 <= j < k + 1 && orig[j]@ == p) && p != path@ by {
                        if has_str(kept@, p) {
                            let j = choose|j: int| 0 <= j < kept@.len() && kept@[j]@ == p;
                            if j < kept_before.len() {
                                assert(has_str(kept_before, p));
                            }
                        }
                        if (exists|j: int| 0 <= j < k + 1 && orig[j]@ == p) && p != path@ {
                            let j = choose|j: int| 0 <= j < k + 1 && orig[j]@ == p;
                            if j < k {
                                assert(has_str(kept_before, p));
                                let l = choose|l: int|
                                    0 <= l < kept_before.len() && kept_before[l]@ == p;
                                assert(kept@[l]@ == p);
                            } else {
                                assert(kept@[kept@.len() - 1]@ == p);
                            }
                        }
                    }
                }
            } else {
                proof {
                    assert forall|p: Seq<char>|
                        has_str(kept@, p) <==> (exists|j: int|
                            0 <= j < k + 1 && orig[j]@ == p) && p != path@ by {
                        if (exists|j: int| 0 <= j < k + 1 && orig[j]@ == p) && p != path@ {
                            let j = choose|j: int| 0 <= j < k + 1 && orig[j]@ == p;
                            assert(j < k);
                        }
                    }
                }
            }
            k += 1;
        }
        n.repositories = kept;
        proof {
            assert forall|p: Seq<char>|
                n.subtree_contains(p) <==> old(n).subtree_contains(p) && p != path@ by {
                if n.subtree_contains(p) {
                    if has_str(n.repositories@, p) {
                        let j = choose|j: int| 0 <= j < k && orig[j]@ == p;
                        assert(0 <= j < orig.len() && orig[j]@ == p);
                        assert(has_str(orig, p));
                    } else {
                        let j = choose|j: int|
                            0 <= j < n.children@.len() && (#[trigger] n.children@[
                            j].1).subtree_contains(p);
                        assert(old(n).children@[j].1.subtree_contains(p));
                        assert(old(n).subtree_contains(p));
                        if p == path@ {
                            let cp = pre.push(old(n).children@[j].0@);
                            lemma_wf_placement(old(n).children@[j].1, cp, p);
                            assert(path_segs(p).len() >= cp.len());
                        }
                    }
                }
                if old(n).subtree_contains(p) && p != path@ {
                    if has_str(orig, p) {
                        let j = choose|j: int| 0 <= j < orig.len() && orig[j]@ == p;
                        assert(0 <= j < k && orig[j]@ == p);
                        assert(has_str(n.repositories@, p));
                    } else {
                        let j = choose|j: int|
                            0 <= j < old(n).children@.len() && (#[trigger] old(n).children@[
                            j].1).subtree_contains(p);
                        assert(n.children@[j].1.subtree_contains(p));
                    }
                }
            }
        }
    } else {
        let mut i: usize = 0;
        let mut found: Option<usize> = None;
        while i < n.children.len()
            invariant
                i <= n.children@.len(),
                found matches Some(fi) ==> fi < n.children@.len() && n.children@[fi as int].0@
                    == segs@[d as int]@,
                found is None ==> forall|j: int|
                    0 <= j < i ==> n.children@[j].0@ != segs@[d as int]@,
                d < segs@.len(),
            decreases n.children@.len() - i,
        {
            if seg_eq(&n.children[i].0, &segs[d]) {
                found = Some(i);
                break ;
            }
            i += 1;
        }
        match found {
            None => {
                // The chain of segments breaks here, so the path is absent.
                proof {
                    assert(*n == *old(n));
                    assert forall|p: Seq<char>|
                        n.subtree_contains(p) <==> old(n).subtree_contains(p) && p != path@ by {
                        if n.subtree_contains(p) && p == path@ {
                            lemma_wf_localize(*n, pre, p);
                            assert(pre.len() == d);
                            assert(path_segs(p) != pre) by {
                                assert(full.len() > pre.len());
                            }
                            assert(path_segs(p)[pre.len() as int] == full[d as int]);
                        }
                    }
                }
            },
            Some(fi) => {
                let ghost child_pre = pre.push(full[d as int]);
                proof {
                    assert(child_pre =~= full.take(d as int + 1));
                }
                let ghost before = *n;
                proof {
                    assert(before == *old(n));
                }
                let mut entry = n.children.remove(fi);
                proof {
                    assert(entry == before.children@[fi as int]);
                    assert(entry.1.wf(pre.push(before.children@[fi as int].0@)));
                    assert(child_pre == pre.push(before.children@[fi as int].0@));
                }
                node_remove(&mut entry.1, segs, d + 1, path, Ghost(child_pre));
                n.children.insert(fi, entry);
                proof {
                    assert(n.children@ =~= before.children@.update(
                        fi as int,
                        n.children@[fi as int],
                    ));
                    assert(n.children@[fi as int].0@ == before.children@[fi as int].0@);
                    assert(n.repositories@ == before.repositories@);
                    assert(n.wf(pre)) by {
                        assert forall|ii: int, jj: int|
                            0 <= ii < jj < n.children@.len() implies n.children@[ii].0@
                            != n.children@[jj].0@ by {
                            assert(before.children@[ii].0@ != before.children@[jj].0@);
                            assert(n.children@[ii].0@ == before.children@[ii].0@);
                            assert(n.children@[jj].0@ == before.children@[jj].0@);
                        }
                        assert forall|ii: int|
                            0 <= ii < n.children@.len() implies (#[trigger] n.children@[
                        ii]).1.wf(pre.push(n.children@[ii].0@)) by {
                            if ii != fi {
                                assert(n.children@[ii] == before.children@[ii]);
                            }
                        }
                    }
                    assert forall|p: Seq<char>|
                        #![trigger n.subtree_contains(p)]
                        #![trigger before.subtree_contains(p)]
                        n.subtree_contains(p) <==> before.subtree_contains(p) && p != path@ by {
                        if n.subtree_contains(p) {
                            if !has_str(n.repositories@, p) {
                                let j = choose|j: int|
                                    0 <= j < n.children@.len() && (#[trigger] n.children@[
                                    j].1).subtree_contains(p);
                                if j != fi {
                                    assert(before.children@[j].1.subtree_contains(p));
                                    if p == path@ {
                                        let cp = pre.push(before.children@[j].0@);
                                        lemma_wf_placement(before.children@[j].1, cp, p);
                                        assert(cp[d as int] == before.children@[j].0@);
                                        assert(full.subrange(0, cp.len() as int)[d as int]
                                            == full[d as int]);
                                        assert(before.children@[j].0@ == full[d as int]);
                                        assert(before.children@[fi as int].0@ == full[
                                        d as int]);
                                        assert(before.children@[j].0@ != before.children@[
                                        fi as int].0@);
                                    }
                                }
                            } else {
                                if p == path@ {
                                    assert(path_segs(p) == pre);
                                    assert(full.len() > pre.len());
                                }
                            }
                        }
                        if before.subtree_contains(p) && p != path@ {
                            if !has_str(before.repositories@, p) {
                                let j = choose|j: int|
                                    0 <= j < before.children@.len() && (
                                    #[trigger] before.children@[j].1).subtree_contains(p);
                                if j != fi {
                                    assert(n.children@[j].1.subtree_contains(p));
                                } else {
                                    assert(n.children@[fi as int].1.subtree_contains(p));
                                }
                            }
                        }
                    }
                    assert(forall|p: Seq<char>|
                        #![trigger n.subtree_contains(p)]
                        #![trigger old(n).subtree_contains(p)]
                        n.subtree_contains(p) <==> old(n).subtree_contains(p) && p != path@);
                }
            },
        }
    }
}

/// Append every path stored at or below `n` to `out`.
#[verifier::loop_isolation(false)]
#[verifier::rlimit(40)]
#[verifier::spinoff_prover]
fn collect_into(n: &TrieNode, out: &mut Vec<String>, Ghost(pre): Ghost<Seq<Seq<u8>>>)
    requires
        n.wf(pre),
        distinct_views(old(out)@),
        forall|p: Seq<char>| has_str(old(out)@, p) ==> !n.subtree_contains(p),
    ensures
        distinct_views(final(out)@),
        forall|p: Seq<char>|
            has_str(final(out)@, p) <==> has_str(old(out)@, p) || n.subtree_contains(p),
    decreases *n,
{
    let ghost entry = out@;
    let mut k: usize = 0;
    while k < n.repositories.len()
        invariant
            k <= n.repositories@.len(),
            out@.len() == entry.len() + k,
            forall|j: int| 0 <= j < entry.len() ==> out@[j] == entry[j],
            forall|j: int|
                0 <= j < k ==> out@[entry.len() + j]@ == (#[trigger] n.repositories@[j])@,
        decreases n.repositories@.len() - k,
    {
        out.push(n.repositories[k].clone());
        k += 1;
    }
    let ghost after_own = out@;
    proof {
        // Everything in `out` so far is either an entry value or one of this
        // node's own stored paths, and vice versa; and all are distinct.
        assert forall|p: Seq<char>|
            has_str(out@, p) <==> has_str(entry, p) || has_str(n.repositories@, p) by {
            if has_str(out@, p) {
                let i0 = choose|i0: int| 0 <= i0 < out@.len() && out@[i0]@ == p;
                if i0 < entry.len() {
                    assert(entry[i0]@ == p);
                    assert(has_str(entry, p));
                } else {
                    assert(n.repositories@[i0 - entry.len()]@ == p);
                    assert(has_str(n.repositories@, p));
                }
            }
            if has_str(entry, p) {
                let i0 = choose|i0: int| 0 <= i0 < entry.len() && entry[i0]@ == p;
                assert(out@[i0]@ == p);
            }
            if has_str(n.repositories@, p) {
                let i0 = choose|i0: int|
                    0 <= i0 < n.repositories@.len() && n.repositories@[i0]@ == p;
                assert(out@[entry.len() + i0]@ == p);
            }
        }
        assert(distinct_views(out@)) by {
            assert forall|a: int, b: int|
                0 <= a < b < out@.len() implies out@[a]@ != out@[b]@ by {
                if b < entry.len() {
                    assert(out@[a] == entry[a]);
                    assert(out@[b] == entry[b]);
                    assert(entry[a]@ != entry[b]@);
                } else if a >= entry.len() {
                    assert(distinct_views(n.repositories@));
                    assert(out@[a]@ == n.repositories@[a - entry.len()]@);
                    assert(out@[b]@ == n.repositories@[b - entry.len()]@);
                    assert(n.repositories@[a - entry.len()]@ != n.repositories@[b - entry.len()]@);
                } else {
                    // An entry value never lies in this subtree, but every
                    // stored path of the node does.
                    assert(out@[a]@ == entry[a]@);
                    assert(out@[b]@ == n.repositories@[b - entry.len()]@);
                    if out@[a]@ == out@[b]@ {
                        assert(has_str(entry, out@[b]@));
                        assert(has_str(n.repositories@, out@[b]@));
                        assert(n.subtree_contains(out@[b]@));
                    }
                }
            }
        }
    }
    let mut i: usize = 0;
    while i < n.children.len()
        invariant
            i <= n.children@.len(),
            n.wf(pre),
            distinct_views(out@),
            forall|p: Seq<char>| has_str(entry, p) ==> !n.subtree_contains(p),
            forall|p: Seq<char>|
                has_str(out@, p) <==> has_str(entry, p) || has_str(n.repositories@, p) || (
                exists|j: int|
                    0 <= j < i && (#[trigger] n.children@[j].1).subtree_contains(p)),
        decreases n.children@.len() - i,
    {
        let ghost before = out@;
        proof {
            assert(forall|p: Seq<char>|
                has_str(before, p) <==> has_str(entry, p) || has_str(n.repositories@, p) || (
                exists|j: int|
                    0 <= j < i && (#[trigger] n.children@[j].1).subtree_contains(p)));
            assert forall|p: Seq<char>|
                has_str(before, p) implies !n.children@[i as int].1.subtree_contains(p) by {
                if n.children@[i as int].1.subtree_contains(p) {
                    assert(n.subtree_contains(p));
                    lemma_wf_placement(
                        n.children@[i as int].1,
                        pre.push(n.children@[i as int].0@),
                        p,
                    );
                    if has_str(n.repositories@, p) {
                        assert(path_segs(p) == pre);
                        let cp = pre.push(n.children@[i as int].0@);
                        assert(path_segs(p).len() >= cp.len());
                    } else if !has_str(entry, p) {
                        let j = choose|j: int|
                            0 <= j < i && (#[trigger] n.children@[j].1).subtree_contains(p);
                        lemma_wf_localize(
                            n.children@[j].1,
                            pre.push(n.children@[j].0@),
                            p,
                        );
                        lemma_wf_localize(
                            n.children@[i as int].1,
                            pre.push(n.children@[i as int].0@),
                            p,
                        );
                        let cpj = pre.push(n.children@[j].0@);
                        let cpi = pre.push(n.children@[i as int].0@);
                        assert(path_segs(p)[pre.len() as int] == cpj[pre.len() as int]) by {
                            lemma_wf_placement(n.children@[j].1, cpj, p);
                            assert(path_segs(p).subrange(0, cpj.len() as int)[pre.len() as int]
                                == path_segs(p)[pre.len() as int]);
                        }
                        assert(path_segs(p)[pre.len() as int] == cpi[pre.len() as int]) by {
                            lemma_wf_placement(n.children@[i as int].1, cpi, p);
                            assert(path_segs(p).subrange(0, cpi.len() as int)[pre.len() as int]
                                == path_segs(p)[pre.len() as int]);
                        }
                        assert(n.children@[j].0@ == n.children@[i as int].0@);
                    }
                }
            }
            assert(decreases_to!(*n => n.children@[i as int].1));
        }
        collect_into(&n.children[i].1, out, Ghost(pre.push(n.children@[i as int].0@)));
        proof {
            assert forall|p: Seq<char>|
                has_str(out@, p) <==> has_str(entry, p) || has_str(n.repositories@, p) || (
                exists|j: int|
                    0 <= j < i + 1 && (#[trigger] n.children@[j].1).subtree_contains(p)) by {
                if has_str(out@, p) {
                    if has_str(before, p) {
                    } else {
                        assert(n.children@[i as int].1.subtree_contains(p));
                    }
                }
                if has_str(entry, p) || has_str(n.repositories@, p) || (exists|j: int|
                    0 <= j < i + 1 && (#[trigger] n.children@[j].1).subtree_contains(p)) {
                    if has_str(before, p) {
                        assert(has_str(out@, p));
                    } else if exists|j: int|
                        0 <= j < i + 1 && (#[trigger] n.children@[j].1).subtree_contains(p) {
                        let j = choose|j: int|
                            0 <= j < i + 1 && (#[trigger] n.children@[j].1).subtree_contains(p);
                        if j < i {
                            assert(has_str(before, p));
                        } else {
                            assert(n.children@[i as int].1.subtree_contains(p));
                        }
                    }
                }
            }
        }
        i += 1;
    }
    proof {
        assert forall|p: Seq<char>|
            has_str(out@, p) <==> has_str(entry, p) || n.subtree_contains(p) by {
            if n.subtree_contains(p) && !has_str(n.repositories@, p) {
                let j = choose|j: int|
                    0 <= j < n.children@.len() && (#[trigger] n.children@[j].1).subtree_contains(
                        p,
                    );
            }
        }
    }
}

} // verus!
