//! Filesystem-path helpers: splitting a path into its `/`-separated segments
//! (empty segments dropped), and plain string prefix tests. Paths are handled
//! as their UTF-8 byte encodings, over which all contracts are stated.

use vstd::prelude::*;
use vstd::string::StringSliceAdditionalSpecFns;

verus! {

/// The byte value of the path separator `/`.
pub open spec fn sep() -> u8 {
    47
}

/// Split the remaining bytes `s` into segments, with `cur` the partial
/// segment accumulated so far.
pub open spec fn seg_split_rec(s: Seq<u8>, cur: Seq<u8>) -> Seq<Seq<u8>>
    decreases s.len(),
{
    if s.len() == 0 {
        if cur.len() == 0 {
            Seq::empty()
        } else {
            seq![cur]
        }
    } else if s[0] == sep() {
        if cur.len() == 0 {
            seg_split_rec(s.skip(1), Seq::empty())
        } else {
            seq![cur] + seg_split_rec(s.skip(1), Seq::empty())
        }
    } else {
        seg_split_rec(s.skip(1), cur.push(s[0]))
    }
}

/// The segments of a path: the maximal nonempty runs of bytes between `/`
/// separators. `/home/user` splits into `home`, `user`; leading, trailing and
/// repeated separators contribute nothing.
pub open spec fn seg_split(s: Seq<u8>) -> Seq<Seq<u8>> {
    seg_split_rec(s, Seq::empty())
}

/// Split a path into its segments.
pub fn split_segments(path: &str) -> (r: Vec<Vec<u8>>)
    ensures
        r@.map_values(|v: Vec<u8>| v@) == seg_split(path.spec_bytes()),
{
    let bytes: &[u8] = path.as_bytes();
    let ghost full: Seq<u8> = path.spec_bytes();
    let mut segs: Vec<Vec<u8>> = Vec::new();
    let mut cur: Vec<u8> = Vec::new();
    let mut i: usize = 0;
    proof {
        assert(full.skip(0) =~= full);
        assert(cur@ =~= Seq::<u8>::empty());
        assert(segs@.map_values(|v: Vec<u8>| v@) + seg_split_rec(full, cur@) =~= seg_split_rec(
            full,
            Seq::<u8>::empty(),
        ));
    }
    while i < bytes.len()
        invariant
            i <= full.len(),
            bytes@ == full,
            seg_split(full) == segs@.map_values(|v: Vec<u8>| v@) + seg_split_rec(
                full.skip(i as int),
                cur@,
            ),
        decreases full.len() - i,
    {
        let b = bytes[i];
        proof {
            assert(full.skip(i as int)[0] == b);
            assert(full.skip(i as int).skip(1) =~= full.skip(i as int + 1));
        }
        if b == 47 {
            if cur.len() > 0 {
                let ghost old_segs = segs@;
                segs.push(cur);
                cur = Vec::new();
                proof {
                    assert(cur@ =~= Seq::<u8>::empty());
                    assert(segs@.map_values(|v: Vec<u8>| v@) =~= old_segs.map_values(
                        |v: Vec<u8>| v@,
                    ).push(segs@.last()@));
                    assert(segs@.map_values(|v: Vec<u8>| v@) + seg_split_rec(
                        full.skip(i as int + 1),
                        cur@,
                    ) =~= old_segs.map_values(|v: Vec<u8>| v@) + (seq![segs@.last()@]
                        + seg_split_rec(full.skip(i as int + 1), Seq::<u8>::empty())));
                }
            } else {
                proof {
                    assert(cur@ =~= Seq::<u8>::empty());
                }
            }
        } else {
            let ghost old_cur = cur@;
            cur.push(b);
            proof {
                assert(seg_split_rec(full.skip(i as int), old_cur) == seg_split_rec(
                    full.skip(i as int + 1),
                    cur@,
                ));
            }
        }
        i += 1;
    }
    proof {
        assert(full.skip(i as int) =~= Seq::<u8>::empty());
    }
    if cur.len() > 0 {
        let ghost old_segs = segs@;
        segs.push(cur);
        proof {
            assert(segs@.map_values(|v: Vec<u8>| v@) =~= old_segs.map_values(|v: Vec<u8>| v@)
                + seq![segs@.last()@]);
        }
    }
    proof {
        assert(segs@.map_values(|v: Vec<u8>| v@) + Seq::<Seq<u8>>::empty() =~= segs@.map_values(
            |v: Vec<u8>| v@,
        ));
    }
    segs
}

/// Whether `p` is a prefix of `s`, byte for byte.
pub fn bytes_prefix_of(p: &[u8], s: &[u8]) -> (r: bool)
    ensures
        r == p@.is_prefix_of(s@),
{
    if p.len() > s.len() {
        return false;
    }
    let mut i: usize = 0;
    while i < p.len()
        invariant
            p@.len() <= s@.len(),
            i <= p@.len(),
            forall|j: int| 0 <= j < i ==> p@[j] == s@[j],
        decreases p@.len() - i,
    {
        if p[i] != s[i] {
            assert(!p@.is_prefix_of(s@)) by {
                assert(p@[i as int] != s@.subrange(0, p@.len() as int)[i as int]);
            }
            return false;
        }
        i += 1;
    }
    proof {
        assert(p@ =~= s@.subrange(0, p@.len() as int));
    }
    true
}

/// Whether the string `p` is a prefix of the string `s`, over the UTF-8
/// encodings of the two.
pub open spec fn str_prefix(p: Seq<char>, s: Seq<char>) -> bool {
    vstd::utf8::encode_utf8(p).is_prefix_of(vstd::utf8::encode_utf8(s))
}

/// Whether the string `p` is a prefix of the string `s`.
pub fn str_starts_with(s: &str, p: &str) -> (r: bool)
    ensures
        r == str_prefix(p@, s@),
{
    bytes_prefix_of(p.as_bytes(), s.as_bytes())
}


} // verus!
