//! Association vectors: every map of the cache document is a vector of
//! entries, each entry carrying its own key, with keys pairwise distinct.
//! This module gives such vectors a finite-map denotation (`kmap`) and the
//! lookup, upsert and remove operations whose contracts speak in terms of it.

use vstd::prelude::*;

verus! {

/// An entry of an association vector: a value that carries its own key.
/// `SpecKey` is the key as contracts speak of it; `ExecKey` is what lookups
/// take at run time.
pub trait Keyed: Sized {
    type SpecKey;

    type ExecKey: ?Sized;

    /// The key under which the value is stored.
    spec fn key(&self) -> Self::SpecKey;

    /// The key that an `ExecKey` denotes.
    spec fn ekey(k: &Self::ExecKey) -> Self::SpecKey;

    /// Whether this entry's key equals `k`.
    fn key_is(&self, k: &Self::ExecKey) -> (r: bool)
        ensures
            r == (self.key() == Self::ekey(k)),
    ;
}

/// The keys of the entries are pairwise distinct.
pub open spec fn unique_keys<T: Keyed>(s: Seq<T>) -> bool {
    forall|i: int, j: int| 0 <= i < j < s.len() ==> s[i].key() != s[j].key()
}

/// The finite map denoted by an association vector. A later entry shadows an
/// earlier one with the same key, which cannot arise under `unique_keys`.
pub open spec fn kmap<T: Keyed>(s: Seq<T>) -> Map<T::SpecKey, T>
    decreases s.len(),
{
    if s.len() == 0 {
        Map::empty()
    } else {
        kmap(s.drop_last()).insert(s.last().key(), s.last())
    }
}

/// A key is in the denoted map exactly when some entry carries it.
pub proof fn lemma_kmap_contains<T: Keyed>(s: Seq<T>, k: T::SpecKey)
    ensures
        kmap(s).contains_key(k) <==> exists|i: int| 0 <= i < s.len() && s[i].key() == k,
    decreases s.len(),
{
    if s.len() > 0 {
        lemma_kmap_contains(s.drop_last(), k);
        if s.last().key() == k {
            assert(s[s.len() - 1].key() == k);
        } else if exists|i: int| 0 <= i < s.len() && s[i].key() == k {
            let i = choose|i: int| 0 <= i < s.len() && s[i].key() == k;
            assert(s.drop_last()[i] == s[i]);
        }
    }
}

/// Under distinct keys, each entry is the map's value at its own key.
pub proof fn lemma_kmap_index<T: Keyed>(s: Seq<T>, i: int)
    requires
        unique_keys(s),
        0 <= i < s.len(),
    ensures
        kmap(s).contains_key(s[i].key()),
        kmap(s)[s[i].key()] == s[i],
    decreases s.len(),
{
    if i == s.len() - 1 {
    } else {
        assert(s.drop_last()[i] == s[i]);
        lemma_kmap_index(s.drop_last(), i);
        assert(s[i].key() != s.last().key());
    }
}

/// Replacing the entry at `i` by one with the same key is a map update.
pub proof fn lemma_kmap_update<T: Keyed>(s: Seq<T>, i: int, item: T)
    requires
        unique_keys(s),
        0 <= i < s.len(),
        item.key() == s[i].key(),
    ensures
        unique_keys(s.update(i, item)),
        kmap(s.update(i, item)) =~= kmap(s).insert(item.key(), item),
    decreases s.len(),
{
    let t = s.update(i, item);
    assert(unique_keys(t)) by {
        assert forall|p: int, q: int| 0 <= p < q < t.len() implies t[p].key() != t[q].key() by {
            assert(t[p] == if p == i { item } else { s[p] });
            assert(t[q] == if q == i { item } else { s[q] });
        }
    }
    if i == s.len() - 1 {
        assert(t.drop_last() =~= s.drop_last());
    } else {
        assert(t.drop_last() =~= s.drop_last().update(i, item));
        assert(s.drop_last()[i] == s[i]);
        lemma_kmap_update(s.drop_last(), i, item);
        assert(t.last() == s.last());
        assert(s.last().key() != item.key());
    }
}

/// Appending an entry with a fresh key is a map insert.
pub proof fn lemma_kmap_push<T: Keyed>(s: Seq<T>, item: T)
    requires
        unique_keys(s),
        !kmap(s).contains_key(item.key()),
    ensures
        unique_keys(s.push(item)),
        kmap(s.push(item)) == kmap(s).insert(item.key(), item),
{
    lemma_kmap_contains(s, item.key());
    assert(s.push(item).drop_last() =~= s);
    assert(unique_keys(s.push(item))) by {
        let t = s.push(item);
        assert forall|p: int, q: int| 0 <= p < q < t.len() implies t[p].key() != t[q].key() by {
            if q == s.len() as int {
                assert(t[p] == s[p]);
            } else {
                assert(t[p] == s[p] && t[q] == s[q]);
            }
        }
    }
}

/// Removing the entry at `i` is a map remove at its key.
pub proof fn lemma_kmap_remove<T: Keyed>(s: Seq<T>, i: int)
    requires
        unique_keys(s),
        0 <= i < s.len(),
    ensures
        unique_keys(s.remove(i)),
        kmap(s.remove(i)) =~= kmap(s).remove(s[i].key()),
    decreases s.len(),
{
    let t = s.remove(i);
    assert(unique_keys(t)) by {
        assert forall|p: int, q: int| 0 <= p < q < t.len() implies t[p].key() != t[q].key() by {
            assert(t[p] == if p < i { s[p] } else { s[p + 1] });
            assert(t[q] == if q < i { s[q] } else { s[q + 1] });
        }
    }
    if i == s.len() - 1 {
        assert(t =~= s.drop_last());
        lemma_kmap_contains(s.drop_last(), s[i].key());
        assert(!kmap(s.drop_last()).contains_key(s[i].key()));
    } else {
        assert(t.drop_last() =~= s.drop_last().remove(i));
        assert(s.drop_last()[i] == s[i]);
        lemma_kmap_remove(s.drop_last(), i);
        assert(t.last() == s.last());
        assert(s.last().key() != s[i].key());
    }
}

/// Index of the entry carrying key `k`, if any.
pub fn kfind<T: Keyed>(v: &Vec<T>, k: &T::ExecKey) -> (r: Option<usize>)
    ensures
        match r {
            Some(i) => i < v@.len() && v@[i as int].key() == T::ekey(k),
            None => forall|i: int| 0 <= i < v@.len() ==> v@[i].key() != T::ekey(k),
        },
{
    let mut i: usize = 0;
    while i < v.len()
        invariant
            i <= v@.len(),
            forall|j: int| 0 <= j < i ==> v@[j].key() != T::ekey(k),
        decreases v@.len() - i,
    {
        if v[i].key_is(k) {
            return Some(i);
        }
        i += 1;
    }
    None
}

/// Lookup by key.
pub fn kget<'a, T: Keyed>(v: &'a Vec<T>, k: &T::ExecKey) -> (r: Option<&'a T>)
    requires
        unique_keys(v@),
    ensures
        r is Some <==> kmap(v@).contains_key(T::ekey(k)),
        r matches Some(t) ==> *t == kmap(v@)[T::ekey(k)],
{
    proof {
        lemma_kmap_contains(v@, T::ekey(k));
    }
    match kfind(v, k) {
        Some(i) => {
            proof {
                lemma_kmap_index(v@, i as int);
            }
            Some(&v[i])
        },
        None => None,
    }
}

/// Insert a fresh entry or fully replace the one with the same key.
pub fn kupsert<T: Keyed>(v: &mut Vec<T>, k: &T::ExecKey, item: T)
    requires
        unique_keys(old(v)@),
        T::ekey(k) == item.key(),
    ensures
        unique_keys(final(v)@),
        kmap(final(v)@) == kmap(old(v)@).insert(item.key(), item),
        final(v)@.len() == old(v)@.len() || final(v)@.len() == old(v)@.len() + 1,
        forall|i: int|
            0 <= i < final(v)@.len() ==> final(v)@[i] == item || old(v)@.contains(
                #[trigger] final(v)@[i]),
{
    match kfind(v, k) {
        Some(i) => {
            proof {
                lemma_kmap_update(v@, i as int, item);
            }
            v.set(i, item);
        },
        None => {
            proof {
                lemma_kmap_contains(v@, item.key());
                lemma_kmap_push(v@, item);
            }
            v.push(item);
        },
    }
}

/// Remove the entry carrying key `k`, if any, and return it.
pub fn kremove<T: Keyed>(v: &mut Vec<T>, k: &T::ExecKey) -> (r: Option<T>)
    requires
        unique_keys(old(v)@),
    ensures
        unique_keys(final(v)@),
        kmap(final(v)@) == kmap(old(v)@).remove(T::ekey(k)),
        r is Some <==> kmap(old(v)@).contains_key(T::ekey(k)),
        r matches Some(t) ==> t == kmap(old(v)@)[T::ekey(k)],
        forall|i: int| 0 <= i < final(v)@.len() ==> old(v)@.contains(#[trigger] final(v)@[i]),
{
    proof {
        lemma_kmap_contains(v@, T::ekey(k));
    }
    match kfind(v, k) {
        Some(i) => {
            proof {
                lemma_kmap_index(v@, i as int);
                lemma_kmap_remove(v@, i as int);
                assert(forall|j: int|
                    0 <= j < v@.remove(i as int).len() ==> v@.contains(
                        #[trigger] v@.remove(i as int)[j]));
            }
            Some(v.remove(i))
        },
        None => {
            proof {
                assert(kmap(v@) =~= kmap(v@).remove(T::ekey(k)));
            }
            None
        },
    }
}

/// The strings of the sequence are pairwise distinct.
pub open spec fn distinct_views(s: Seq<String>) -> bool {
    forall|i: int, j: int| 0 <= i < j < s.len() ==> s[i]@ != s[j]@
}

/// Whether some string of the sequence reads `k`.
pub open spec fn has_str(s: Seq<String>, k: Seq<char>) -> bool {
    exists|i: int| 0 <= i < s.len() && s[i]@ == k
}

/// Membership reads the same on the vector and on its deep view.
pub proof fn lemma_has_str_deep(v: Vec<String>, k: Seq<char>)
    ensures
        has_str(v@, k) <==> v.deep_view().contains(k),
{
    if has_str(v@, k) {
        let i = choose|i: int| 0 <= i < v@.len() && v@[i]@ == k;
        assert(v.deep_view()[i] == k);
    }
    if v.deep_view().contains(k) {
        let i = choose|i: int| 0 <= i < v.deep_view().len() && v.deep_view()[i] == k;
        assert(v@[i]@ == k);
    }
}

/// Membership test on a vector of strings.
pub fn contains_string(v: &Vec<String>, k: &String) -> (r: bool)
    ensures
        r == has_str(v@, k@),
{
    let mut i: usize = 0;
    while i < v.len()
        invariant
            i <= v@.len(),
            forall|j: int| 0 <= j < i ==> v@[j]@ != k@,
        decreases v@.len() - i,
    {
        if v[i].eq(k) {
            assert(v@[i as int]@ == k@);
            return true;
        }
        i += 1;
    }
    false
}

} // verus!
