//! The on-disk format of the cache document, and its schema migration. The
//! document is a length-prefixed binary record: integers are eight bytes
//! little-endian, strings are a byte count followed by UTF-8, options carry a
//! tag byte, lists a count. The first byte of a document names its schema
//! generation; the loader tries the current generation first and falls back
//! to the prior one, filling the documented defaults for every field the old
//! layout lacked.

use crate::repo_types::{
    Collection, CollectionModel, GitRepository, GitRepositoryModel, NodeModulesInfo,
    NodeModulesInfoModel, RepositoryCache, RepositoryCacheModel, ScanPath, ScanPathModel,
    StoreError,
};
use vstd::prelude::*;
use vstd::utf8::{decode_utf8, encode_utf8, valid_utf8};

verus! {

/// The serialized form of a `u64`: eight bytes, least significant first.
#[verifier::opaque]
pub open spec fn spec_ser_u64(v: u64) -> Seq<u8> {
    seq![
        ((v >> 0u64) % 256) as u8,
        ((v >> 8u64) % 256) as u8,
        ((v >> 16u64) % 256) as u8,
        ((v >> 24u64) % 256) as u8,
        ((v >> 32u64) % 256) as u8,
        ((v >> 40u64) % 256) as u8,
        ((v >> 48u64) % 256) as u8,
        ((v >> 56u64) % 256) as u8,
    ]
}

/// Parse a `u64` at position `i`; yields the value and the next position.
#[verifier::opaque]
pub open spec fn sp_u64(s: Seq<u8>, i: int) -> Option<(u64, int)> {
    if 0 <= i && i + 8 <= s.len() {
        Some(
            (
                ((s[i] as int) + 256 * (s[i + 1] as int) + 65536 * (s[i + 2] as int) + 16777216 * (
                s[i + 3] as int) + 4294967296 * (s[i + 4] as int) + 1099511627776 * (s[i + 5] as int)
                    + 281474976710656 * (s[i + 6] as int) + 72057594037927936 * (s[i + 7] as int))
                    as u64,
                i + 8,
            ),
        )
    } else {
        None
    }
}

/// Reading back the eight bytes of a `u64` restores it.
pub proof fn lemma_rt_u64(v: u64, pre: Seq<u8>, suf: Seq<u8>)
    ensures
        sp_u64(pre + spec_ser_u64(v) + suf, pre.len() as int) == Some(
            (v, pre.len() + spec_ser_u64(v).len() as int),
        ),
{
    reveal(spec_ser_u64);
    reveal(sp_u64);
    let s = pre + spec_ser_u64(v) + suf;
    let i = pre.len() as int;
    assert(s[i] == spec_ser_u64(v)[0]);
    assert(s[i + 1] == spec_ser_u64(v)[1]);
    assert(s[i + 2] == spec_ser_u64(v)[2]);
    assert(s[i + 3] == spec_ser_u64(v)[3]);
    assert(s[i + 4] == spec_ser_u64(v)[4]);
    assert(s[i + 5] == spec_ser_u64(v)[5]);
    assert(s[i + 6] == spec_ser_u64(v)[6]);
    assert(s[i + 7] == spec_ser_u64(v)[7]);
    assert((((v >> 0u64) % 256) as u8 as int) + 256 * (((v >> 8u64) % 256) as u8 as int) + 65536 * ((
    (v >> 16u64) % 256) as u8 as int) + 16777216 * (((v >> 24u64) % 256) as u8 as int) + 4294967296
        * (((v >> 32u64) % 256) as u8 as int) + 1099511627776 * (((v >> 40u64) % 256) as u8 as int)
        + 281474976710656 * (((v >> 48u64) % 256) as u8 as int) + 72057594037927936 * (((v
        >> 56u64) % 256) as u8 as int) == v as int) by (bit_vector);
}

/// Append the eight bytes of `v`.
pub fn put_u64(out: &mut Vec<u8>, v: u64)
    ensures
        final(out)@ == old(out)@ + spec_ser_u64(v),
{
    proof {
        reveal(spec_ser_u64);
    }
    out.push(((v >> 0u64) % 256) as u8);
    out.push(((v >> 8u64) % 256) as u8);
    out.push(((v >> 16u64) % 256) as u8);
    out.push(((v >> 24u64) % 256) as u8);
    out.push(((v >> 32u64) % 256) as u8);
    out.push(((v >> 40u64) % 256) as u8);
    out.push(((v >> 48u64) % 256) as u8);
    out.push(((v >> 56u64) % 256) as u8);
    proof {
        assert(out@ =~= old(out)@ + spec_ser_u64(v));
    }
}

/// Read a `u64` at `pos`.
pub fn take_u64(s: &Vec<u8>, pos: usize) -> (r: Option<(u64, usize)>)
    ensures
        match r {
            Some((v, n)) => sp_u64(s@, pos as int) == Some((v, n as int)),
            None => sp_u64(s@, pos as int) is None,
        },
{
    proof {
        reveal(sp_u64);
    }
    if pos <= s.len() && s.len() - pos >= 8 {
        let b0 = s[pos] as u64;
        let b1 = s[pos + 1] as u64;
        let b2 = s[pos + 2] as u64;
        let b3 = s[pos + 3] as u64;
        let b4 = s[pos + 4] as u64;
        let b5 = s[pos + 5] as u64;
        let b6 = s[pos + 6] as u64;
        let b7 = s[pos + 7] as u64;
        let v = b0 + 256 * b1 + 65536 * b2 + 16777216 * b3 + 4294967296 * b4 + 1099511627776 * b5
            + 281474976710656 * b6 + 72057594037927936 * b7;
        Some((v, pos + 8))
    } else {
        None
    }
}

/// The serialized form of an `i64`: a sign byte, then the magnitude.
#[verifier::opaque]
pub open spec fn spec_ser_i64(v: i64) -> Seq<u8> {
    if v >= 0 {
        seq![0u8] + spec_ser_u64(v as u64)
    } else {
        seq![1u8] + spec_ser_u64((-(v as int)) as u64)
    }
}

/// Parse an `i64` at position `i`.
#[verifier::opaque]
pub open spec fn sp_i64(s: Seq<u8>, i: int) -> Option<(i64, int)> {
    if 0 <= i && i + 1 <= s.len() {
        if s[i] == 0u8 {
            match sp_u64(s, i + 1) {
                Some((m, n)) => if m <= i64::MAX as u64 {
                    Some((m as i64, n))
                } else {
                    None
                },
                None => None,
            }
        } else if s[i] == 1u8 {
            match sp_u64(s, i + 1) {
                Some((m, n)) => if 1 <= m <= 0x8000000000000000u64 {
                    Some(((-(m as int)) as i64, n))
                } else {
                    None
                },
                None => None,
            }
        } else {
            None
        }
    } else {
        None
    }
}

/// Reading back a serialized `i64` restores it.
pub proof fn lemma_rt_i64(v: i64, pre: Seq<u8>, suf: Seq<u8>)
    ensures
        sp_i64(pre + spec_ser_i64(v) + suf, pre.len() as int) == Some(
            (v, pre.len() + spec_ser_i64(v).len() as int),
        ),
{
    reveal(spec_ser_i64);
    reveal(sp_i64);
    reveal(spec_ser_u64);
    let s = pre + spec_ser_i64(v) + suf;
    let i = pre.len() as int;
    if v >= 0 {
        assert(s[i] == 0u8);
        assert(pre + spec_ser_i64(v) + suf =~= (pre + seq![0u8]) + spec_ser_u64(v as u64) + suf);
        lemma_rt_u64(v as u64, pre + seq![0u8], suf);
    } else {
        assert(s[i] == 1u8);
        let m = (-(v as int)) as u64;
        assert(pre + spec_ser_i64(v) + suf =~= (pre + seq![1u8]) + spec_ser_u64(m) + suf);
        lemma_rt_u64(m, pre + seq![1u8], suf);
        assert(1 <= m <= 0x8000000000000000u64);
    }
}

/// Append the sign byte and magnitude of `v`.
pub fn put_i64(out: &mut Vec<u8>, v: i64)
    ensures
        final(out)@ == old(out)@ + spec_ser_i64(v),
{
    proof {
        reveal(spec_ser_i64);
    }
    if v >= 0 {
        out.push(0u8);
        put_u64(out, v as u64);
    } else {
        out.push(1u8);
        let m: u64 = if v == i64::MIN {
            0x8000000000000000u64
        } else {
            (-v) as u64
        };
        proof {
            assert(m == (-(v as int)) as u64);
        }
        put_u64(out, m);
    }
    proof {
        assert(out@ =~= old(out)@ + spec_ser_i64(v));
    }
}

/// Read an `i64` at `pos`.
pub fn take_i64(s: &Vec<u8>, pos: usize) -> (r: Option<(i64, usize)>)
    ensures
        match r {
            Some((v, n)) => sp_i64(s@, pos as int) == Some((v, n as int)),
            None => sp_i64(s@, pos as int) is None,
        },
{
    proof {
        reveal(sp_i64);
    }
    if pos >= s.len() {
        return None;
    }
    let tag = s[pos];
    if tag == 0 {
        match take_u64(s, pos + 1) {
            Some((m, n)) => {
                if m <= i64::MAX as u64 {
                    Some((m as i64, n))
                } else {
                    None
                }
            },
            None => None,
        }
    } else if tag == 1 {
        match take_u64(s, pos + 1) {
            Some((m, n)) => {
                if 1 <= m && m <= 0x8000000000000000u64 {
                    let v: i64 = if m == 0x8000000000000000u64 {
                        i64::MIN
                    } else {
                        -(m as i64)
                    };
                    proof {
                        assert(v == (-(m as int)) as i64);
                    }
                    Some((v, n))
                } else {
                    None
                }
            },
            None => None,
        }
    } else {
        None
    }
}

/// The serialized form of a `bool`: one byte, zero or one.
#[verifier::opaque]
pub open spec fn spec_ser_bool(v: bool) -> Seq<u8> {
    if v {
        seq![1u8]
    } else {
        seq![0u8]
    }
}

/// Parse a `bool` at position `i`; any other byte value is a parse error.
#[verifier::opaque]
pub open spec fn sp_bool(s: Seq<u8>, i: int) -> Option<(bool, int)> {
    if 0 <= i && i + 1 <= s.len() {
        if s[i] == 0u8 {
            Some((false, i + 1))
        } else if s[i] == 1u8 {
            Some((true, i + 1))
        } else {
            None
        }
    } else {
        None
    }
}

/// Append the byte of `v`.
pub fn put_bool(out: &mut Vec<u8>, v: bool)
    ensures
        final(out)@ == old(out)@ + spec_ser_bool(v),
{
    proof {
        reveal(spec_ser_bool);
    }
    if v {
        out.push(1u8);
    } else {
        out.push(0u8);
    }
    proof {
        assert(out@ =~= old(out)@ + spec_ser_bool(v));
    }
}

/// Read a `bool` at `pos`.
pub fn take_bool(s: &Vec<u8>, pos: usize) -> (r: Option<(bool, usize)>)
    ensures
        match r {
            Some((v, n)) => sp_bool(s@, pos as int) == Some((v, n as int)),
            None => sp_bool(s@, pos as int) is None,
        },
{
    proof {
        reveal(sp_bool);
    }
    if pos >= s.len() {
        return None;
    }
    let tag = s[pos];
    if tag == 0 {
        Some((false, pos + 1))
    } else if tag == 1 {
        Some((true, pos + 1))
    } else {
        None
    }
}

/// The serialized form of a `u32`: widened to eight bytes.
#[verifier::opaque]
pub open spec fn spec_ser_u32(v: u32) -> Seq<u8> {
    spec_ser_u64(v as u64)
}

/// Parse a `u32` at position `i`; values beyond `u32` are a parse error.
#[verifier::opaque]
pub open spec fn sp_u32(s: Seq<u8>, i: int) -> Option<(u32, int)> {
    match sp_u64(s, i) {
        Some((v, n)) => if v <= u32::MAX as u64 {
            Some((v as u32, n))
        } else {
            None
        },
        None => None,
    }
}

/// Reading back a serialized `u32` restores it.
pub proof fn lemma_rt_u32(v: u32, pre: Seq<u8>, suf: Seq<u8>)
    ensures
        sp_u32(pre + spec_ser_u32(v) + suf, pre.len() as int) == Some(
            (v, pre.len() + spec_ser_u32(v).len() as int),
        ),
{
    reveal(spec_ser_u32);
    reveal(sp_u32);
    reveal(spec_ser_u64);
    lemma_rt_u64(v as u64, pre, suf);
}

/// Append `v`, widened.
pub fn put_u32(out: &mut Vec<u8>, v: u32)
    ensures
        final(out)@ == old(out)@ + spec_ser_u32(v),
{
    proof {
        reveal(spec_ser_u32);
    }
    put_u64(out, v as u64);
}

/// Read a `u32` at `pos`.
pub fn take_u32(s: &Vec<u8>, pos: usize) -> (r: Option<(u32, usize)>)
    ensures
        match r {
            Some((v, n)) => sp_u32(s@, pos as int) == Some((v, n as int)),
            None => sp_u32(s@, pos as int) is None,
        },
{
    proof {
        reveal(sp_u32);
    }
    match take_u64(s, pos) {
        Some((v, n)) => {
            if v <= u32::MAX as u64 {
                Some((v as u32, n))
            } else {
                None
            }
        },
        None => None,
    }
}

/// A string whose UTF-8 encoding a length prefix can describe.
pub open spec fn bstr(s: Seq<char>) -> bool {
    encode_utf8(s).len() <= u64::MAX
}

/// The serialized form of a string: its UTF-8 byte count, then the bytes.
#[verifier::opaque]
pub open spec fn spec_ser_str(v: Seq<char>) -> Seq<u8> {
    spec_ser_u64(encode_utf8(v).len() as u64) + encode_utf8(v)
}

/// Parse a string at position `i`: a byte count, then that many bytes, which
/// must be valid UTF-8.
#[verifier::opaque]
pub open spec fn sp_str(s: Seq<u8>, i: int) -> Option<(Seq<char>, int)> {
    match sp_u64(s, i) {
        Some((len, n)) => if n + len <= s.len() {
            let bytes = s.subrange(n, n + len);
            if valid_utf8(bytes) {
                Some((decode_utf8(bytes), n + len))
            } else {
                None
            }
        } else {
            None
        },
        None => None,
    }
}

/// Reading back a serialized string restores it.
pub proof fn lemma_rt_str(v: Seq<char>, pre: Seq<u8>, suf: Seq<u8>)
    requires
        bstr(v),
    ensures
        sp_str(pre + spec_ser_str(v) + suf, pre.len() as int) == Some(
            (v, pre.len() + spec_ser_str(v).len() as int),
        ),
{
    reveal(spec_ser_str);
    reveal(sp_str);
    reveal(spec_ser_u64);
    let bytes = encode_utf8(v);
    let len = bytes.len() as u64;
    assert(pre + spec_ser_str(v) + suf =~= pre + spec_ser_u64(len) + (bytes + suf));
    lemma_rt_u64(len, pre, bytes + suf);
    let s = pre + spec_ser_str(v) + suf;
    let n = pre.len() + 8 as int;
    assert(s.subrange(n, n + len as int) =~= bytes);
    vstd::utf8::encode_utf8_valid_utf8(v);
    vstd::utf8::encode_utf8_decode_utf8(v);
}

/// Append the byte count and UTF-8 bytes of `v`.
pub fn put_str(out: &mut Vec<u8>, v: &str)
    ensures
        final(out)@ == old(out)@ + spec_ser_str(v@),
        bstr(v@),
{
    proof {
        reveal(spec_ser_str);
    }
    let mut bytes = vstd::string::StrSliceExecFns::as_bytes_vec(v);
    let blen = bytes.len();
    proof {
        assert(blen == encode_utf8(v@).len());
    }
    put_u64(out, blen as u64);
    out.append(&mut bytes);
    proof {
        assert(out@ =~= old(out)@ + spec_ser_str(v@));
    }
}

/// Relies on std::str::from_utf8: it accepts exactly the valid UTF-8 byte
/// strings and decodes them.
#[verifier::external_body]
fn bytes_to_string(b: &[u8]) -> (r: Option<String>)
    ensures
        r is Some <==> valid_utf8(b@),
        r matches Some(s) ==> s@ == decode_utf8(b@),
{
    match std::str::from_utf8(b) {
        Ok(s) => Some(s.to_owned()),
        Err(_) => None,
    }
}

/// Read a string at `pos`.
pub fn take_str(s: &Vec<u8>, pos: usize) -> (r: Option<(String, usize)>)
    ensures
        match r {
            Some((v, n)) => sp_str(s@, pos as int) == Some((v@, n as int)),
            None => sp_str(s@, pos as int) is None,
        },
{
    proof {
        reveal(sp_str);
    }
    match take_u64(s, pos) {
        None => None,
        Some((len, n)) => {
            if n <= s.len() && len <= (s.len() - n) as u64 {
                let m = n + (len as usize);
                let sub: &[u8] = &s.as_slice()[n..m];
                proof {
                    assert(sub@ == s@.subrange(n as int, n as int + len as int));
                }
                match bytes_to_string(sub) {
                    Some(v) => Some((v, m)),
                    None => None,
                }
            } else {
                None
            }
        },
    }
}

/// A value the document format can carry: how it serializes, how it parses,
/// and that parsing its serialization restores it.
pub trait Encode: Sized + DeepView {
    /// The serialized form of a model value.
    spec fn spec_ser(m: Self::V) -> Seq<u8>;

    /// Parse one value at position `i`.
    spec fn sp(s: Seq<u8>, i: int) -> Option<(Self::V, int)>;

    /// Whether a model value is small enough for its length prefixes.
    spec fn bounded(m: Self::V) -> bool;

    /// Reading back a serialized value restores it.
    proof fn lemma_rt(m: Self::V, pre: Seq<u8>, suf: Seq<u8>)
        requires
            Self::bounded(m),
        ensures
            Self::sp(pre + Self::spec_ser(m) + suf, pre.len() as int) == Some(
                (m, pre.len() + Self::spec_ser(m).len() as int),
            ),
    ;

    /// Append the serialized form.
    fn put(&self, out: &mut Vec<u8>)
        ensures
            final(out)@ == old(out)@ + Self::spec_ser(self.deep_view()),
            Self::bounded(self.deep_view()),
    ;

    /// Read one value at `pos`.
    fn take(s: &Vec<u8>, pos: usize) -> (r: Option<(Self, usize)>)
        ensures
            match r {
                Some((v, n)) => Self::sp(s@, pos as int) == Some((v.deep_view(), n as int)),
                None => Self::sp(s@, pos as int) is None,
            },
    ;
}

impl Encode for u64 {
    open spec fn spec_ser(m: u64) -> Seq<u8> {
        spec_ser_u64(m)
    }

    open spec fn sp(s: Seq<u8>, i: int) -> Option<(u64, int)> {
        sp_u64(s, i)
    }

    open spec fn bounded(m: u64) -> bool {
        true
    }

    proof fn lemma_rt(m: u64, pre: Seq<u8>, suf: Seq<u8>) {
        lemma_rt_u64(m, pre, suf);
    }

    fn put(&self, out: &mut Vec<u8>) {
        put_u64(out, *self);
    }

    fn take(s: &Vec<u8>, pos: usize) -> (r: Option<(u64, usize)>) {
        take_u64(s, pos)
    }
}

impl Encode for u32 {
    open spec fn spec_ser(m: u32) -> Seq<u8> {
        spec_ser_u32(m)
    }

    open spec fn sp(s: Seq<u8>, i: int) -> Option<(u32, int)> {
        sp_u32(s, i)
    }

    open spec fn bounded(m: u32) -> bool {
        true
    }

    proof fn lemma_rt(m: u32, pre: Seq<u8>, suf: Seq<u8>) {
        lemma_rt_u32(m, pre, suf);
    }

    fn put(&self, out: &mut Vec<u8>) {
        put_u32(out, *self);
    }

    fn take(s: &Vec<u8>, pos: usize) -> (r: Option<(u32, usize)>) {
        take_u32(s, pos)
    }
}

impl Encode for i64 {
    open spec fn spec_ser(m: i64) -> Seq<u8> {
        spec_ser_i64(m)
    }

    open spec fn sp(s: Seq<u8>, i: int) -> Option<(i64, int)> {
        sp_i64(s, i)
    }

    open spec fn bounded(m: i64) -> bool {
        true
    }

    proof fn lemma_rt(m: i64, pre: Seq<u8>, suf: Seq<u8>) {
        lemma_rt_i64(m, pre, suf);
    }

    fn put(&self, out: &mut Vec<u8>) {
        put_i64(out, *self);
    }

    fn take(s: &Vec<u8>, pos: usize) -> (r: Option<(i64, usize)>) {
        take_i64(s, pos)
    }
}

impl Encode for bool {
    open spec fn spec_ser(m: bool) -> Seq<u8> {
        spec_ser_bool(m)
    }

    open spec fn sp(s: Seq<u8>, i: int) -> Option<(bool, int)> {
        sp_bool(s, i)
    }

    open spec fn bounded(m: bool) -> bool {
        true
    }

    proof fn lemma_rt(m: bool, pre: Seq<u8>, suf: Seq<u8>) {
        reveal(spec_ser_bool);
        reveal(sp_bool);
        let s = pre + spec_ser_bool(m) + suf;
        assert(s[pre.len() as int] == spec_ser_bool(m)[0]);
    }

    fn put(&self, out: &mut Vec<u8>) {
        put_bool(out, *self);
    }

    fn take(s: &Vec<u8>, pos: usize) -> (r: Option<(bool, usize)>) {
        take_bool(s, pos)
    }
}

impl Encode for String {
    open spec fn spec_ser(m: Seq<char>) -> Seq<u8> {
        spec_ser_str(m)
    }

    open spec fn sp(s: Seq<u8>, i: int) -> Option<(Seq<char>, int)> {
        sp_str(s, i)
    }

    open spec fn bounded(m: Seq<char>) -> bool {
        bstr(m)
    }

    proof fn lemma_rt(m: Seq<char>, pre: Seq<u8>, suf: Seq<u8>) {
        lemma_rt_str(m, pre, suf);
    }

    fn put(&self, out: &mut Vec<u8>) {
        put_str(out, self.as_str());
    }

    fn take(s: &Vec<u8>, pos: usize) -> (r: Option<(String, usize)>) {
        take_str(s, pos)
    }
}

/// The serialized form of an option: a tag byte, then the value if any.
#[verifier::opaque]
pub open spec fn spec_ser_opt<T: Encode>(m: Option<T::V>) -> Seq<u8> {
    match m {
        None => seq![0u8],
        Some(v) => seq![1u8] + T::spec_ser(v),
    }
}

/// Parse an option at position `i`.
#[verifier::opaque]
pub open spec fn sp_opt<T: Encode>(s: Seq<u8>, i: int) -> Option<(Option<T::V>, int)> {
    if 0 <= i && i + 1 <= s.len() {
        if s[i] == 0u8 {
            Some((None, i + 1))
        } else if s[i] == 1u8 {
            match T::sp(s, i + 1) {
                Some((v, n)) => Some((Some(v), n)),
                None => None,
            }
        } else {
            None
        }
    } else {
        None
    }
}

impl<T: Encode> Encode for Option<T> {
    open spec fn spec_ser(m: Option<T::V>) -> Seq<u8> {
        spec_ser_opt::<T>(m)
    }

    open spec fn sp(s: Seq<u8>, i: int) -> Option<(Option<T::V>, int)> {
        sp_opt::<T>(s, i)
    }

    open spec fn bounded(m: Option<T::V>) -> bool {
        match m {
            Some(v) => T::bounded(v),
            None => true,
        }
    }

    proof fn lemma_rt(m: Option<T::V>, pre: Seq<u8>, suf: Seq<u8>) {
        reveal(spec_ser_opt);
        reveal(sp_opt);
        let s = pre + spec_ser_opt::<T>(m) + suf;
        match m {
            None => {
                assert(s[pre.len() as int] == 0u8);
            },
            Some(v) => {
                assert(s[pre.len() as int] == 1u8);
                assert(pre + spec_ser_opt::<T>(m) + suf =~= (pre + seq![1u8]) + T::spec_ser(v)
                    + suf);
                T::lemma_rt(v, pre + seq![1u8], suf);
            },
        }
    }

    fn put(&self, out: &mut Vec<u8>) {
        proof {
            reveal(spec_ser_opt);
        }
        match self {
            None => {
                out.push(0u8);
            },
            Some(v) => {
                out.push(1u8);
                v.put(out);
            },
        }
        proof {
            assert(out@ =~= old(out)@ + spec_ser_opt::<T>(self.deep_view()));
        }
    }

    fn take(s: &Vec<u8>, pos: usize) -> (r: Option<(Option<T>, usize)>) {
        proof {
            reveal(sp_opt);
        }
        if pos >= s.len() {
            return None;
        }
        let tag = s[pos];
        if tag == 0 {
            Some((None, pos + 1))
        } else if tag == 1 {
            match T::take(s, pos + 1) {
                Some((v, n)) => Some((Some(v), n)),
                None => None,
            }
        } else {
            None
        }
    }
}

impl Encode for (String, u32) {
    open spec fn spec_ser(m: (Seq<char>, u32)) -> Seq<u8> {
        spec_ser_str(m.0) + spec_ser_u32(m.1)
    }

    open spec fn sp(s: Seq<u8>, i: int) -> Option<((Seq<char>, u32), int)> {
        match sp_str(s, i) {
            Some((a, j)) => match sp_u32(s, j) {
                Some((b, n)) => Some(((a, b), n)),
                None => None,
            },
            None => None,
        }
    }

    open spec fn bounded(m: (Seq<char>, u32)) -> bool {
        bstr(m.0)
    }

    proof fn lemma_rt(m: (Seq<char>, u32), pre: Seq<u8>, suf: Seq<u8>) {
        assert(pre + Self::spec_ser(m) + suf =~= pre + spec_ser_str(m.0) + (spec_ser_u32(m.1)
            + suf));
        lemma_rt_str(m.0, pre, spec_ser_u32(m.1) + suf);
        assert(pre + spec_ser_str(m.0) + (spec_ser_u32(m.1) + suf) =~= (pre + spec_ser_str(m.0))
            + spec_ser_u32(m.1) + suf);
        lemma_rt_u32(m.1, pre + spec_ser_str(m.0), suf);
    }

    fn put(&self, out: &mut Vec<u8>) {
        put_str(out, self.0.as_str());
        put_u32(out, self.1);
        proof {
            assert(out@ =~= old(out)@ + Self::spec_ser(self.deep_view()));
        }
    }

    fn take(s: &Vec<u8>, pos: usize) -> (r: Option<((String, u32), usize)>) {
        match take_str(s, pos) {
            Some((a, j)) => match take_u32(s, j) {
                Some((b, n)) => Some(((a, b), n)),
                None => None,
            },
            None => None,
        }
    }
}

/// The serialized forms of the items of a list, in order.
#[verifier::opaque]
pub open spec fn spec_ser_items<T: Encode>(l: Seq<T::V>) -> Seq<u8>
    decreases l.len(),
{
    if l.len() == 0 {
        Seq::empty()
    } else {
        T::spec_ser(l[0]) + spec_ser_items::<T>(l.skip(1))
    }
}

/// Parse exactly `n` items starting at position `i`.
#[verifier::opaque]
pub open spec fn sp_items<T: Encode>(s: Seq<u8>, i: int, n: nat) -> Option<(Seq<T::V>, int)>
    decreases n,
{
    if n == 0 {
        Some((Seq::empty(), i))
    } else {
        match T::sp(s, i) {
            Some((v, j)) => match sp_items::<T>(s, j, (n - 1) as nat) {
                Some((rest, k)) => Some((seq![v] + rest, k)),
                None => None,
            },
            None => None,
        }
    }
}

/// The serialized form of a list: its length, then its items.
#[verifier::opaque]
pub open spec fn spec_ser_list<T: Encode>(l: Seq<T::V>) -> Seq<u8> {
    spec_ser_u64(l.len() as u64) + spec_ser_items::<T>(l)
}

/// Parse a list at position `i`.
#[verifier::opaque]
pub open spec fn sp_list<T: Encode>(s: Seq<u8>, i: int) -> Option<(Seq<T::V>, int)> {
    match sp_u64(s, i) {
        Some((n, j)) => sp_items::<T>(s, j, n as nat),
        None => None,
    }
}

/// Every item of the list is bounded, and so is its length.
pub open spec fn bounded_items<T: Encode>(l: Seq<T::V>) -> bool {
    l.len() <= u64::MAX && forall|i: int| 0 <= i < l.len() ==> T::bounded(#[trigger] l[i])
}

/// Concatenation of byte strings associates.
pub proof fn lemma_seq_assoc(x: Seq<u8>, y: Seq<u8>, z: Seq<u8>)
    ensures
        (x + y) + z == x + (y + z),
{
    assert((x + y) + z =~= x + (y + z));
}

/// Serializing one more item appends its bytes.
pub proof fn lemma_ser_items_snoc<T: Encode>(l: Seq<T::V>, x: T::V)
    ensures
        spec_ser_items::<T>(l.push(x)) == spec_ser_items::<T>(l) + T::spec_ser(x),
    decreases l.len(),
{
    reveal(spec_ser_items);
    if l.len() == 0 {
        assert(l.push(x)[0] == x);
        assert(l.push(x).skip(1) =~= Seq::<T::V>::empty());
        assert(spec_ser_items::<T>(l.push(x)) == T::spec_ser(x) + spec_ser_items::<T>(
            l.push(x).skip(1),
        ));
        assert(spec_ser_items::<T>(Seq::<T::V>::empty()) == Seq::<u8>::empty());
        assert(spec_ser_items::<T>(l) == Seq::<u8>::empty());
        assert(T::spec_ser(x) + Seq::<u8>::empty() =~= Seq::<u8>::empty() + T::spec_ser(x));
    } else {
        assert(l.push(x)[0] == l[0]);
        assert(l.push(x).skip(1) =~= l.skip(1).push(x));
        lemma_ser_items_snoc::<T>(l.skip(1), x);
        assert(spec_ser_items::<T>(l.push(x)) == T::spec_ser(l[0]) + (spec_ser_items::<T>(
            l.skip(1),
        ) + T::spec_ser(x)));
        assert(T::spec_ser(l[0]) + (spec_ser_items::<T>(l.skip(1)) + T::spec_ser(x)) =~= (
        T::spec_ser(l[0]) + spec_ser_items::<T>(l.skip(1))) + T::spec_ser(x));
    }
}

/// Reading back `l.len()` serialized items restores them.
pub proof fn lemma_rt_items<T: Encode>(l: Seq<T::V>, pre: Seq<u8>, suf: Seq<u8>)
    requires
        forall|i: int| 0 <= i < l.len() ==> T::bounded(#[trigger] l[i]),
    ensures
        sp_items::<T>(pre + spec_ser_items::<T>(l) + suf, pre.len() as int, l.len()) == Some(
            (l, pre.len() + spec_ser_items::<T>(l).len() as int),
        ),
    decreases l.len(),
{
    reveal(spec_ser_items);
    reveal(sp_items);
    if l.len() == 0 {
        assert(sp_items::<T>(pre + spec_ser_items::<T>(l) + suf, pre.len() as int, 0) == Some((
            Seq::<T::V>::empty(),
            pre.len() as int,
        )));
        assert(l =~= Seq::<T::V>::empty());
        assert(spec_ser_items::<T>(l) =~= Seq::<u8>::empty());
    } else {
        let head = l[0];
        let rest = l.skip(1);
        assert(pre + spec_ser_items::<T>(l) + suf =~= pre + T::spec_ser(head) + (
        spec_ser_items::<T>(rest) + suf));
        T::lemma_rt(head, pre, spec_ser_items::<T>(rest) + suf);
        let pre2 = pre + T::spec_ser(head);
        assert(pre + T::spec_ser(head) + (spec_ser_items::<T>(rest) + suf) =~= pre2
            + spec_ser_items::<T>(rest) + suf);
        lemma_rt_items::<T>(rest, pre2, suf);
        assert(seq![head] + rest =~= l);
    }
}

/// Reading back a serialized list restores it.
pub proof fn lemma_rt_list<T: Encode>(l: Seq<T::V>, pre: Seq<u8>, suf: Seq<u8>)
    requires
        bounded_items::<T>(l),
    ensures
        sp_list::<T>(pre + spec_ser_list::<T>(l) + suf, pre.len() as int) == Some(
            (l, pre.len() + spec_ser_list::<T>(l).len() as int),
        ),
{
    reveal(spec_ser_list);
    reveal(sp_list);
    assert(pre + spec_ser_list::<T>(l) + suf =~= pre + spec_ser_u64(l.len() as u64) + (
    spec_ser_items::<T>(l) + suf));
    lemma_rt_u64(l.len() as u64, pre, spec_ser_items::<T>(l) + suf);
    let pre2 = pre + spec_ser_u64(l.len() as u64);
    assert(pre + spec_ser_u64(l.len() as u64) + (spec_ser_items::<T>(l) + suf) =~= pre2
        + spec_ser_items::<T>(l) + suf);
    lemma_rt_items::<T>(l, pre2, suf);
}

/// Append a list: its length, then its items.
#[verifier::loop_isolation(false)]
pub fn put_list<T: Encode>(out: &mut Vec<u8>, v: &Vec<T>)
    ensures
        final(out)@ == old(out)@ + spec_ser_list::<T>(v.deep_view()),
        bounded_items::<T>(v.deep_view()),
{
    proof {
        reveal(spec_ser_list);
        reveal(spec_ser_items);
    }
    let n = v.len();
    put_u64(out, n as u64);
    let ghost l = v.deep_view();
    let mut i: usize = 0;
    proof {
        assert(l.take(0) =~= Seq::<T::V>::empty());
        assert(spec_ser_items::<T>(l.take(0)) =~= Seq::<u8>::empty());
        assert(out@ =~= old(out)@ + spec_ser_u64(n as u64) + spec_ser_items::<T>(l.take(0)));
    }
    while i < v.len()
        invariant
            i <= v@.len(),
            out@ == old(out)@ + spec_ser_u64(n as u64) + spec_ser_items::<T>(l.take(i as int)),
            forall|j: int| 0 <= j < i ==> T::bounded(#[trigger] l[j]),
        decreases v@.len() - i,
    {
        proof {
            assert(l[i as int] == v@[i as int].deep_view());
        }
        v[i].put(out);
        proof {
            assert(l.take(i as int + 1) =~= l.take(i as int).push(l[i as int]));
            lemma_ser_items_snoc::<T>(l.take(i as int), l[i as int]);
            assert(out@ =~= old(out)@ + spec_ser_u64(n as u64) + spec_ser_items::<T>(
                l.take(i as int + 1),
            ));
        }
        i += 1;
    }
    proof {
        assert(l.take(l.len() as int) =~= l);
        assert(out@ =~= old(out)@ + spec_ser_list::<T>(l));
    }
}

/// Read a list at `pos`.
#[verifier::loop_isolation(false)]
pub fn take_list<T: Encode>(s: &Vec<u8>, pos: usize) -> (r: Option<(Vec<T>, usize)>)
    ensures
        match r {
            Some((v, n)) => sp_list::<T>(s@, pos as int) == Some((v.deep_view(), n as int)),
            None => sp_list::<T>(s@, pos as int) is None,
        },
{
    proof {
        reveal(sp_list);
        reveal(sp_items);
    }
    let (count, mut cur) = match take_u64(s, pos) {
        Some(x) => x,
        None => {
            return None;
        },
    };
    let ghost start = cur as int;
    let mut out: Vec<T> = Vec::new();
    let mut k: u64 = 0;
    proof {
        assert(out.deep_view() =~= Seq::<T::V>::empty());
    }
    while k < count
        invariant
            k <= count,
            out.deep_view().len() == k,
            sp_items::<T>(s@, start, count as nat) == (match sp_items::<T>(
                s@,
                cur as int,
                (count - k) as nat,
            ) {
                Some((rest, end)) => Some((out.deep_view() + rest, end)),
                None => None::<(Seq<T::V>, int)>,
            }),
            sp_u64(s@, pos as int) == Some((count, start)),
        decreases count - k,
    {
        let ghost dv0 = out.deep_view();
        proof {
            reveal(sp_items);
        }
        match T::take(s, cur) {
            Some((v, n)) => {
                out.push(v);
                proof {
                    reveal(sp_items);
                    assert(out.deep_view() =~= dv0.push(v.deep_view())) by {
                        assert forall|j: int|
                            0 <= j < out.deep_view().len() implies out.deep_view()[j] == dv0.push(
                            v.deep_view(),
                        )[j] by {
                            assert(out.deep_view()[j] == out@[j].deep_view());
                        }
                    }
                    assert forall|rest: Seq<T::V>|
                        dv0 + (seq![v.deep_view()] + rest) =~= dv0.push(v.deep_view())
                            + rest by {}
                }
                cur = n;
            },
            None => {
                return None;
            },
        }
        k = k + 1;
    }
    proof {
        reveal(sp_items);
        assert(sp_items::<T>(s@, cur as int, 0) == Some((Seq::<T::V>::empty(), cur as int)));
        assert(out.deep_view() + Seq::<T::V>::empty() =~= out.deep_view());
    }
    Some((out, cur))
}

/// The dependency summary on disk: its fields in order.
impl Encode for NodeModulesInfo {
    open spec fn spec_ser(m: NodeModulesInfoModel) -> Seq<u8> {
        spec_ser_u64(m.total_size_mb) + spec_ser_u32(m.count) + spec_ser_list::<String>(m.paths) + spec_ser_i64(m.last_scanned) + spec_ser_i64(m.package_json_modified)
    }

    open spec fn sp(s: Seq<u8>, i: int) -> Option<(NodeModulesInfoModel, int)> {
        match sp_u64(s, i) {
            Some((x0, p0)) => {
                match sp_u32(s, p0) {
                    Some((x1, p1)) => {
                        match sp_list::<String>(s, p1) {
                            Some((x2, p2)) => {
                                match sp_i64(s, p2) {
                                    Some((x3, p3)) => {
                                        match sp_i64(s, p3) {
                                            Some((x4, p4)) => {
                                                Some((NodeModulesInfoModel { total_size_mb: x0, count: x1, paths: x2, last_scanned: x3, package_json_modified: x4 }, p4))
                                            },
                                            None => None,
                                        }
                                    },
                                    None => None,
                                }
                            },
                            None => None,
                        }
                    },
                    None => None,
                }
            },
            None => None,
        }
    }

    open spec fn bounded(m: NodeModulesInfoModel) -> bool {
        bounded_items::<String>(m.paths)
    }

    #[verifier::rlimit(80)]
    #[verifier::spinoff_prover]
    proof fn lemma_rt(m: NodeModulesInfoModel, pre: Seq<u8>, suf: Seq<u8>) {
        let a0 = spec_ser_u64(m.total_size_mb);
        let a1 = spec_ser_u32(m.count);
        let a2 = spec_ser_list::<String>(m.paths);
        let a3 = spec_ser_i64(m.last_scanned);
        let a4 = spec_ser_i64(m.package_json_modified);
        let s = pre + Self::spec_ser(m) + suf;
        let suf4 = suf;
        let suf3 = a4 + suf4;
        let suf2 = a3 + suf3;
        let suf1 = a2 + suf2;
        let suf0 = a1 + suf1;
        let pre0 = pre;
        let pre1 = pre0 + a0;
        let pre2 = pre1 + a1;
        let pre3 = pre2 + a2;
        let pre4 = pre3 + a3;
        assert(Self::spec_ser(m) == (a0 + a1 + a2 + a3 + a4));
        assert(s == (pre + (a0 + a1 + a2 + a3 + a4)) + suf4);
        lemma_seq_assoc(pre, (a0 + a1 + a2 + a3), a4);
        lemma_seq_assoc(pre + (a0 + a1 + a2 + a3), a4, suf4);
        assert(s == (pre + (a0 + a1 + a2 + a3)) + suf3);
        lemma_seq_assoc(pre, (a0 + a1 + a2), a3);
        lemma_seq_assoc(pre + (a0 + a1 + a2), a3, suf3);
        assert(s == (pre + (a0 + a1 + a2)) + suf2);
        lemma_seq_assoc(pre, (a0 + a1), a2);
        lemma_seq_assoc(pre + (a0 + a1), a2, suf2);
        assert(s == (pre + (a0 + a1)) + suf1);
        lemma_seq_assoc(pre, (a0), a1);
        lemma_seq_assoc(pre + (a0), a1, suf1);
        assert(s == (pre + (a0)) + suf0);
        assert(s == pre0 + a0 + suf0);
        lemma_rt_u64(m.total_size_mb, pre0, suf0);
        lemma_seq_assoc(pre0 + a0, a1, suf1);
        assert(s == pre1 + a1 + suf1);
        lemma_rt_u32(m.count, pre1, suf1);
        lemma_seq_assoc(pre1 + a1, a2, suf2);
        assert(s == pre2 + a2 + suf2);
        lemma_rt_list::<String>(m.paths, pre2, suf2);
        lemma_seq_assoc(pre2 + a2, a3, suf3);
        assert(s == pre3 + a3 + suf3);
        lemma_rt_i64(m.last_scanned, pre3, suf3);
        lemma_seq_assoc(pre3 + a3, a4, suf4);
        assert(s == pre4 + a4 + suf4);
        lemma_rt_i64(m.package_json_modified, pre4, suf4);
        assert(pre.len() + Self::spec_ser(m).len() == pre4.len() + a4.len());
    }

    #[verifier::rlimit(80)]
    fn put(&self, out: &mut Vec<u8>) {
        let ghost m = self.deep_view();
        let ghost start = out@;
        put_u64(out, self.total_size_mb);
        proof {
            assert(out@ =~= start + (spec_ser_u64(m.total_size_mb)));
        }
        put_u32(out, self.count);
        proof {
            assert(out@ =~= start + ((spec_ser_u64(m.total_size_mb)) + spec_ser_u32(m.count))) by {
                assert((start + (spec_ser_u64(m.total_size_mb))) + spec_ser_u32(m.count) =~= start + ((spec_ser_u64(m.total_size_mb)) + spec_ser_u32(m.count)));
            }
        }
        put_list::<String>(out, &self.paths);
        proof {
            assert(out@ =~= start + ((spec_ser_u64(m.total_size_mb) + spec_ser_u32(m.count)) + spec_ser_list::<String>(m.paths))) by {
                assert((start + (spec_ser_u64(m.total_size_mb) + spec_ser_u32(m.count))) + spec_ser_list::<String>(m.paths) =~= start + ((spec_ser_u64(m.total_size_mb) + spec_ser_u32(m.count)) + spec_ser_list::<String>(m.paths)));
            }
        }
        put_i64(out, self.last_scanned);
        proof {
            assert(out@ =~= start + ((spec_ser_u64(m.total_size_mb) + spec_ser_u32(m.count) + spec_ser_list::<String>(m.paths)) + spec_ser_i64(m.last_scanned))) by {
                assert((start + (spec_ser_u64(m.total_size_mb) + spec_ser_u32(m.count) + spec_ser_list::<String>(m.paths))) + spec_ser_i64(m.last_scanned) =~= start + ((spec_ser_u64(m.total_size_mb) + spec_ser_u32(m.count) + spec_ser_list::<String>(m.paths)) + spec_ser_i64(m.last_scanned)));
            }
        }
        put_i64(out, self.package_json_modified);
        proof {
            assert(out@ =~= start + ((spec_ser_u64(m.total_size_mb) + spec_ser_u32(m.count) + spec_ser_list::<String>(m.paths) + spec_ser_i64(m.last_scanned)) + spec_ser_i64(m.package_json_modified))) by {
                assert((start + (spec_ser_u64(m.total_size_mb) + spec_ser_u32(m.count) + spec_ser_list::<String>(m.paths) + spec_ser_i64(m.last_scanned))) + spec_ser_i64(m.package_json_modified) =~= start + ((spec_ser_u64(m.total_size_mb) + spec_ser_u32(m.count) + spec_ser_list::<String>(m.paths) + spec_ser_i64(m.last_scanned)) + spec_ser_i64(m.package_json_modified)));
            }
        }
        proof {
            assert(Self::spec_ser(m) =~= spec_ser_u64(m.total_size_mb) + spec_ser_u32(m.count) + spec_ser_list::<String>(m.paths) + spec_ser_i64(m.last_scanned) + spec_ser_i64(m.package_json_modified));
            assert(out@ =~= start + Self::spec_ser(m));
        }
    }

    #[verifier::rlimit(80)]
    fn take(s: &Vec<u8>, pos: usize) -> (r: Option<(NodeModulesInfo, usize)>) {
        let (x0, p0) = match take_u64(s, pos) {
            Some(x) => x,
            None => {
                return None;
            },
        };
        let (x1, p1) = match take_u32(s, p0) {
            Some(x) => x,
            None => {
                return None;
            },
        };
        let (x2, p2) = match take_list::<String>(s, p1) {
            Some(x) => x,
            None => {
                return None;
            },
        };
        let (x3, p3) = match take_i64(s, p2) {
            Some(x) => x,
            None => {
                return None;
            },
        };
        let (x4, p4) = match take_i64(s, p3) {
            Some(x) => x,
            None => {
                return None;
            },
        };
        let ghost parsed = (NodeModulesInfoModel { total_size_mb: x0, count: x1, paths: x2.deep_view(), last_scanned: x3, package_json_modified: x4 }, p4 as int);
        let v = NodeModulesInfo { total_size_mb: x0, count: x1, paths: x2, last_scanned: x3, package_json_modified: x4 };
        proof {
            assert(Self::sp(s@, pos as int) == Some(parsed));
            assert(v.deep_view() == parsed.0) by {
            }
        }
        Some((v, p4))
    }
}

/// A repository record on disk: its fields in order.
impl Encode for GitRepository {
    open spec fn spec_ser(m: GitRepositoryModel) -> Seq<u8> {
        spec_ser_str(m.name) + spec_ser_str(m.path) + spec_ser_u64(m.size_mb) + spec_ser_list::<(String, u32)>(m.file_types) + spec_ser_opt::<i64>(m.last_commit_date) + spec_ser_opt::<String>(m.current_branch) + spec_ser_list::<String>(m.branches) + spec_ser_opt::<String>(m.remote_url) + spec_ser_u32(m.commit_count) + spec_ser_i64(m.last_analyzed) + spec_ser_bool(m.is_valid) + spec_ser_bool(m.is_pinned) + spec_ser_opt::<i64>(m.pinned_at) + spec_ser_opt::<NodeModulesInfo>(m.node_modules_info)
    }

    open spec fn sp(s: Seq<u8>, i: int) -> Option<(GitRepositoryModel, int)> {
        match sp_str(s, i) {
            Some((x0, p0)) => {
                match sp_str(s, p0) {
                    Some((x1, p1)) => {
                        match sp_u64(s, p1) {
                            Some((x2, p2)) => {
                                match sp_list::<(String, u32)>(s, p2) {
                                    Some((x3, p3)) => {
                                        match sp_opt::<i64>(s, p3) {
                                            Some((x4, p4)) => {
                                                match sp_opt::<String>(s, p4) {
                                                    Some((x5, p5)) => {
                                                        match sp_list::<String>(s, p5) {
                                                            Some((x6, p6)) => {
                                                                match sp_opt::<String>(s, p6) {
                                                                    Some((x7, p7)) => {
                                                                        match sp_u32(s, p7) {
                                                                            Some((x8, p8)) => {
                                                                                match sp_i64(s, p8) {
                                                                                    Some((x9, p9)) => {
                                                                                        match sp_bool(s, p9) {
                                                                                            Some((x10, p10)) => {
                                                                                                match sp_bool(s, p10) {
                                                                                                    Some((x11, p11)) => {
                                                                                                        match sp_opt::<i64>(s, p11) {
                                                                                                            Some((x12, p12)) => {
                                                                                                                match sp_opt::<NodeModulesInfo>(s, p12) {
                                                                                                                    Some((x13, p13)) => {
                                                                                                                        Some((GitRepositoryModel { name: x0, path: x1, size_mb: x2, file_types: x3, last_commit_date: x4, current_branch: x5, branches: x6, remote_url: x7, commit_count: x8, last_analyzed: x9, is_valid: x10, is_pinned: x11, pinned_at: x12, node_modules_info: x13 }, p13))
                                                                                                                    },
                                                                                                                    None => None,
                                                                                                                }
                                                                                                            },
                                                                                                            None => None,
                                                                                                        }
                                                                                                    },
                                                                                                    None => None,
                                                                                                }
                                                                                            },
                                                                                            None => None,
                                                                                        }
                                                                                    },
                                                                                    None => None,
                                                                                }
                                                                            },
                                                                            None => None,
                                                                        }
                                                                    },
                                                                    None => None,
                                                                }
                                                            },
                                                            None => None,
                                                        }
                                                    },
                                                    None => None,
                                                }
                                            },
                                            None => None,
                                        }
                                    },
                                    None => None,
                                }
                            },
                            None => None,
                        }
                    },
                    None => None,
                }
            },
            None => None,
        }
    }

    open spec fn bounded(m: GitRepositoryModel) -> bool {
        bstr(m.name) && bstr(m.path) && bounded_items::<(String, u32)>(m.file_types) && <Option<String> as Encode>::bounded(m.current_branch) && bounded_items::<String>(m.branches) && <Option<String> as Encode>::bounded(m.remote_url) && <Option<NodeModulesInfo> as Encode>::bounded(m.node_modules_info)
    }

    #[verifier::rlimit(80)]
    #[verifier::spinoff_prover]
    proof fn lemma_rt(m: GitRepositoryModel, pre: Seq<u8>, suf: Seq<u8>) {
        let a0 = spec_ser_str(m.name);
        let a1 = spec_ser_str(m.path);
        let a2 = spec_ser_u64(m.size_mb);
        let a3 = spec_ser_list::<(String, u32)>(m.file_types);
        let a4 = spec_ser_opt::<i64>(m.last_commit_date);
        let a5 = spec_ser_opt::<String>(m.current_branch);
        let a6 = spec_ser_list::<String>(m.branches);
        let a7 = spec_ser_opt::<String>(m.remote_url);
        let a8 = spec_ser_u32(m.commit_count);
        let a9 = spec_ser_i64(m.last_analyzed);
        let a10 = spec_ser_bool(m.is_valid);
        let a11 = spec_ser_bool(m.is_pinned);
        let a12 = spec_ser_opt::<i64>(m.pinned_at);
        let a13 = spec_ser_opt::<NodeModulesInfo>(m.node_modules_info);
        let s = pre + Self::spec_ser(m) + suf;
        let suf13 = suf;
        let suf12 = a13 + suf13;
        let suf11 = a12 + suf12;
        let suf10 = a11 + suf11;
        let suf9 = a10 + suf10;
        let suf8 = a9 + suf9;
        let suf7 = a8 + suf8;
        let suf6 = a7 + suf7;
        let suf5 = a6 + suf6;
        let suf4 = a5 + suf5;
        let suf3 = a4 + suf4;
        let suf2 = a3 + suf3;
        let suf1 = a2 + suf2;
        let suf0 = a1 + suf1;
        let pre0 = pre;
        let pre1 = pre0 + a0;
        let pre2 = pre1 + a1;
        let pre3 = pre2 + a2;
        let pre4 = pre3 + a3;
        let pre5 = pre4 + a4;
        let pre6 = pre5 + a5;
        let pre7 = pre6 + a6;
        let pre8 = pre7 + a7;
        let pre9 = pre8 + a8;
        let pre10 = pre9 + a9;
        let pre11 = pre10 + a10;
        let pre12 = pre11 + a11;
        let pre13 = pre12 + a12;
        assert(Self::spec_ser(m) == (a0 + a1 + a2 + a3 + a4 + a5 + a6 + a7 + a8 + a9 + a10 + a11 + a12 + a13));
        assert(s == (pre + (a0 + a1 + a2 + a3 + a4 + a5 + a6 + a7 + a8 + a9 + a10 + a11 + a12 + a13)) + suf13);
        lemma_seq_assoc(pre, (a0 + a1 + a2 + a3 + a4 + a5 + a6 + a7 + a8 + a9 + a10 + a11 + a12), a13);
        lemma_seq_assoc(pre + (a0 + a1 + a2 + a3 + a4 + a5 + a6 + a7 + a8 + a9 + a10 + a11 + a12), a13, suf13);
        assert(s == (pre + (a0 + a1 + a2 + a3 + a4 + a5 + a6 + a7 + a8 + a9 + a10 + a11 + a12)) + suf12);
        lemma_seq_assoc(pre, (a0 + a1 + a2 + a3 + a4 + a5 + a6 + a7 + a8 + a9 + a10 + a11), a12);
        lemma_seq_assoc(pre + (a0 + a1 + a2 + a3 + a4 + a5 + a6 + a7 + a8 + a9 + a10 + a11), a12, suf12);
        assert(s == (pre + (a0 + a1 + a2 + a3 + a4 + a5 + a6 + a7 + a8 + a9 + a10 + a11)) + suf11);
        lemma_seq_assoc(pre, (a0 + a1 + a2 + a3 + a4 + a5 + a6 + a7 + a8 + a9 + a10), a11);
        lemma_seq_assoc(pre + (a0 + a1 + a2 + a3 + a4 + a5 + a6 + a7 + a8 + a9 + a10), a11, suf11);
        assert(s == (pre + (a0 + a1 + a2 + a3 + a4 + a5 + a6 + a7 + a8 + a9 + a10)) + suf10);
        lemma_seq_assoc(pre, (a0 + a1 + a2 + a3 + a4 + a5 + a6 + a7 + a8 + a9), a10);
        lemma_seq_assoc(pre + (a0 + a1 + a2 + a3 + a4 + a5 + a6 + a7 + a8 + a9), a10, suf10);
        assert(s == (pre + (a0 + a1 + a2 + a3 + a4 + a5 + a6 + a7 + a8 + a9)) + suf9);
        lemma_seq_assoc(pre, (a0 + a1 + a2 + a3 + a4 + a5 + a6 + a7 + a8), a9);
        lemma_seq_assoc(pre + (a0 + a1 + a2 + a3 + a4 + a5 + a6 + a7 + a8), a9, suf9);
        assert(s == (pre + (a0 + a1 + a2 + a3 + a4 + a5 + a6 + a7 + a8)) + suf8);
        lemma_seq_assoc(pre, (a0 + a1 + a2 + a3 + a4 + a5 + a6 + a7), a8);
        lemma_seq_assoc(pre + (a0 + a1 + a2 + a3 + a4 + a5 + a6 + a7), a8, suf8);
        assert(s == (pre + (a0 + a1 + a2 + a3 + a4 + a5 + a6 + a7)) + suf7);
        lemma_seq_assoc(pre, (a0 + a1 + a2 + a3 + a4 + a5 + a6), a7);
        lemma_seq_assoc(pre + (a0 + a1 + a2 + a3 + a4 + a5 + a6), a7, suf7);
        assert(s == (pre + (a0 + a1 + a2 + a3 + a4 + a5 + a6)) + suf6);
        lemma_seq_assoc(pre, (a0 + a1 + a2 + a3 + a4 + a5), a6);
        lemma_seq_assoc(pre + (a0 + a1 + a2 + a3 + a4 + a5), a6, suf6);
        assert(s == (pre + (a0 + a1 + a2 + a3 + a4 + a5)) + suf5);
        lemma_seq_assoc(pre, (a0 + a1 + a2 + a3 + a4), a5);
        lemma_seq_assoc(pre + (a0 + a1 + a2 + a3 + a4), a5, suf5);
        assert(s == (pre + (a0 + a1 + a2 + a3 + a4)) + suf4);
        lemma_seq_assoc(pre, (a0 + a1 + a2 + a3), a4);
        lemma_seq_assoc(pre + (a0 + a1 + a2 + a3), a4, suf4);
        assert(s == (pre + (a0 + a1 + a2 + a3)) + suf3);
        lemma_seq_assoc(pre, (a0 + a1 + a2), a3);
        lemma_seq_assoc(pre + (a0 + a1 + a2), a3, suf3);
        assert(s == (pre + (a0 + a1 + a2)) + suf2);
        lemma_seq_assoc(pre, (a0 + a1), a2);
        lemma_seq_assoc(pre + (a0 + a1), a2, suf2);
        assert(s == (pre + (a0 + a1)) + suf1);
        lemma_seq_assoc(pre, (a0), a1);
        lemma_seq_assoc(pre + (a0), a1, suf1);
        assert(s == (pre + (a0)) + suf0);
        assert(s == pre0 + a0 + suf0);
        lemma_rt_str(m.name, pre0, suf0);
        lemma_seq_assoc(pre0 + a0, a1, suf1);
        assert(s == pre1 + a1 + suf1);
        lemma_rt_str(m.path, pre1, suf1);
        lemma_seq_assoc(pre1 + a1, a2, suf2);
        assert(s == pre2 + a2 + suf2);
        lemma_rt_u64(m.size_mb, pre2, suf2);
        lemma_seq_assoc(pre2 + a2, a3, suf3);
        assert(s == pre3 + a3 + suf3);
        lemma_rt_list::<(String, u32)>(m.file_types, pre3, suf3);
        lemma_seq_assoc(pre3 + a3, a4, suf4);
        assert(s == pre4 + a4 + suf4);
        <Option<i64> as Encode>::lemma_rt(m.last_commit_date, pre4, suf4);
        lemma_seq_assoc(pre4 + a4, a5, suf5);
        assert(s == pre5 + a5 + suf5);
        <Option<String> as Encode>::lemma_rt(m.current_branch, pre5, suf5);
        lemma_seq_assoc(pre5 + a5, a6, suf6);
        assert(s == pre6 + a6 + suf6);
        lemma_rt_list::<String>(m.branches, pre6, suf6);
        lemma_seq_assoc(pre6 + a6, a7, suf7);
        assert(s == pre7 + a7 + suf7);
        <Option<String> as Encode>::lemma_rt(m.remote_url, pre7, suf7);
        lemma_seq_assoc(pre7 + a7, a8, suf8);
        assert(s == pre8 + a8 + suf8);
        lemma_rt_u32(m.commit_count, pre8, suf8);
        lemma_seq_assoc(pre8 + a8, a9, suf9);
        assert(s == pre9 + a9 + suf9);
        lemma_rt_i64(m.last_analyzed, pre9, suf9);
        lemma_seq_assoc(pre9 + a9, a10, suf10);
        assert(s == pre10 + a10 + suf10);
        <bool as Encode>::lemma_rt(m.is_valid, pre10, suf10);
        lemma_seq_assoc(pre10 + a10, a11, suf11);
        assert(s == pre11 + a11 + suf11);
        <bool as Encode>::lemma_rt(m.is_pinned, pre11, suf11);
        lemma_seq_assoc(pre11 + a11, a12, suf12);
        assert(s == pre12 + a12 + suf12);
        <Option<i64> as Encode>::lemma_rt(m.pinned_at, pre12, suf12);
        lemma_seq_assoc(pre12 + a12, a13, suf13);
        assert(s == pre13 + a13 + suf13);
        <Option<NodeModulesInfo> as Encode>::lemma_rt(m.node_modules_info, pre13, suf13);
        assert(pre.len() + Self::spec_ser(m).len() == pre13.len() + a13.len());
    }

    #[verifier::rlimit(80)]
    fn put(&self, out: &mut Vec<u8>) {
        let ghost m = self.deep_view();
        let ghost start = out@;
        proof {
            assert(m.file_types =~= self.file_types.deep_view()) by {
                assert forall|j: int| 0 <= j < m.file_types.len() implies m.file_types[j]
                    == self.file_types.deep_view()[j] by {
                    assert(self.file_types.deep_view()[j] == self.file_types@[j].deep_view());
                }
            }
        }
        proof {
            assert(m.node_modules_info == self.node_modules_info.deep_view());
        }
        put_str(out, self.name.as_str());
        proof {
            assert(out@ =~= start + (spec_ser_str(m.name)));
        }
        put_str(out, self.path.as_str());
        proof {
            assert(out@ =~= start + ((spec_ser_str(m.name)) + spec_ser_str(m.path))) by {
                assert((start + (spec_ser_str(m.name))) + spec_ser_str(m.path) =~= start + ((spec_ser_str(m.name)) + spec_ser_str(m.path)));
            }
        }
        put_u64(out, self.size_mb);
        proof {
            assert(out@ =~= start + ((spec_ser_str(m.name) + spec_ser_str(m.path)) + spec_ser_u64(m.size_mb))) by {
                assert((start + (spec_ser_str(m.name) + spec_ser_str(m.path))) + spec_ser_u64(m.size_mb) =~= start + ((spec_ser_str(m.name) + spec_ser_str(m.path)) + spec_ser_u64(m.size_mb)));
            }
        }
        put_list::<(String, u32)>(out, &self.file_types);
        proof {
            assert(out@ =~= start + ((spec_ser_str(m.name) + spec_ser_str(m.path) + spec_ser_u64(m.size_mb)) + spec_ser_list::<(String, u32)>(m.file_types))) by {
                assert((start + (spec_ser_str(m.name) + spec_ser_str(m.path) + spec_ser_u64(m.size_mb))) + spec_ser_list::<(String, u32)>(m.file_types) =~= start + ((spec_ser_str(m.name) + spec_ser_str(m.path) + spec_ser_u64(m.size_mb)) + spec_ser_list::<(String, u32)>(m.file_types)));
            }
        }
        Encode::put(&self.last_commit_date, out);
        proof {
            assert(out@ =~= start + ((spec_ser_str(m.name) + spec_ser_str(m.path) + spec_ser_u64(m.size_mb) + spec_ser_list::<(String, u32)>(m.file_types)) + spec_ser_opt::<i64>(m.last_commit_date))) by {
                assert((start + (spec_ser_str(m.name) + spec_ser_str(m.path) + spec_ser_u64(m.size_mb) + spec_ser_list::<(String, u32)>(m.file_types))) + spec_ser_opt::<i64>(m.last_commit_date) =~= start + ((spec_ser_str(m.name) + spec_ser_str(m.path) + spec_ser_u64(m.size_mb) + spec_ser_list::<(String, u32)>(m.file_types)) + spec_ser_opt::<i64>(m.last_commit_date)));
            }
        }
        Encode::put(&self.current_branch, out);
        proof {
            assert(out@ =~= start + ((spec_ser_str(m.name) + spec_ser_str(m.path) + spec_ser_u64(m.size_mb) + spec_ser_list::<(String, u32)>(m.file_types) + spec_ser_opt::<i64>(m.last_commit_date)) + spec_ser_opt::<String>(m.current_branch))) by {
                assert((start + (spec_ser_str(m.name) + spec_ser_str(m.path) + spec_ser_u64(m.size_mb) + spec_ser_list::<(String, u32)>(m.file_types) + spec_ser_opt::<i64>(m.last_commit_date))) + spec_ser_opt::<String>(m.current_branch) =~= start + ((spec_ser_str(m.name) + spec_ser_str(m.path) + spec_ser_u64(m.size_mb) + spec_ser_list::<(String, u32)>(m.file_types) + spec_ser_opt::<i64>(m.last_commit_date)) + spec_ser_opt::<String>(m.current_branch)));
            }
        }
        put_list::<String>(out, &self.branches);
        proof {
            assert(out@ =~= start + ((spec_ser_str(m.name) + spec_ser_str(m.path) + spec_ser_u64(m.size_mb) + spec_ser_list::<(String, u32)>(m.file_types) + spec_ser_opt::<i64>(m.last_commit_date) + spec_ser_opt::<String>(m.current_branch)) + spec_ser_list::<String>(m.branches))) by {
                assert((start + (spec_ser_str(m.name) + spec_ser_str(m.path) + spec_ser_u64(m.size_mb) + spec_ser_list::<(String, u32)>(m.file_types) + spec_ser_opt::<i64>(m.last_commit_date) + spec_ser_opt::<String>(m.current_branch))) + spec_ser_list::<String>(m.branches) =~= start + ((spec_ser_str(m.name) + spec_ser_str(m.path) + spec_ser_u64(m.size_mb) + spec_ser_list::<(String, u32)>(m.file_types) + spec_ser_opt::<i64>(m.last_commit_date) + spec_ser_opt::<String>(m.current_branch)) + spec_ser_list::<String>(m.branches)));
            }
        }
        Encode::put(&self.remote_url, out);
        proof {
            assert(out@ =~= start + ((spec_ser_str(m.name) + spec_ser_str(m.path) + spec_ser_u64(m.size_mb) + spec_ser_list::<(String, u32)>(m.file_types) + spec_ser_opt::<i64>(m.last_commit_date) + spec_ser_opt::<String>(m.current_branch) + spec_ser_list::<String>(m.branches)) + spec_ser_opt::<String>(m.remote_url))) by {
                assert((start + (spec_ser_str(m.name) + spec_ser_str(m.path) + spec_ser_u64(m.size_mb) + spec_ser_list::<(String, u32)>(m.file_types) + spec_ser_opt::<i64>(m.last_commit_date) + spec_ser_opt::<String>(m.current_branch) + spec_ser_list::<String>(m.branches))) + spec_ser_opt::<String>(m.remote_url) =~= start + ((spec_ser_str(m.name) + spec_ser_str(m.path) + spec_ser_u64(m.size_mb) + spec_ser_list::<(String, u32)>(m.file_types) + spec_ser_opt::<i64>(m.last_commit_date) + spec_ser_opt::<String>(m.current_branch) + spec_ser_list::<String>(m.branches)) + spec_ser_opt::<String>(m.remote_url)));
            }
        }
        put_u32(out, self.commit_count);
        proof {
            assert(out@ =~= start + ((spec_ser_str(m.name) + spec_ser_str(m.path) + spec_ser_u64(m.size_mb) + spec_ser_list::<(String, u32)>(m.file_types) + spec_ser_opt::<i64>(m.last_commit_date) + spec_ser_opt::<String>(m.current_branch) + spec_ser_list::<String>(m.branches) + spec_ser_opt::<String>(m.remote_url)) + spec_ser_u32(m.commit_count))) by {
                assert((start + (spec_ser_str(m.name) + spec_ser_str(m.path) + spec_ser_u64(m.size_mb) + spec_ser_list::<(String, u32)>(m.file_types) + spec_ser_opt::<i64>(m.last_commit_date) + spec_ser_opt::<String>(m.current_branch) + spec_ser_list::<String>(m.branches) + spec_ser_opt::<String>(m.remote_url))) + spec_ser_u32(m.commit_count) =~= start + ((spec_ser_str(m.name) + spec_ser_str(m.path) + spec_ser_u64(m.size_mb) + spec_ser_list::<(String, u32)>(m.file_types) + spec_ser_opt::<i64>(m.last_commit_date) + spec_ser_opt::<String>(m.current_branch) + spec_ser_list::<String>(m.branches) + spec_ser_opt::<String>(m.remote_url)) + spec_ser_u32(m.commit_count)));
            }
        }
        put_i64(out, self.last_analyzed);
        proof {
            assert(out@ =~= start + ((spec_ser_str(m.name) + spec_ser_str(m.path) + spec_ser_u64(m.size_mb) + spec_ser_list::<(String, u32)>(m.file_types) + spec_ser_opt::<i64>(m.last_commit_date) + spec_ser_opt::<String>(m.current_branch) + spec_ser_list::<String>(m.branches) + spec_ser_opt::<String>(m.remote_url) + spec_ser_u32(m.commit_count)) + spec_ser_i64(m.last_analyzed))) by {
                assert((start + (spec_ser_str(m.name) + spec_ser_str(m.path) + spec_ser_u64(m.size_mb) + spec_ser_list::<(String, u32)>(m.file_types) + spec_ser_opt::<i64>(m.last_commit_date) + spec_ser_opt::<String>(m.current_branch) + spec_ser_list::<String>(m.branches) + spec_ser_opt::<String>(m.remote_url) + spec_ser_u32(m.commit_count))) + spec_ser_i64(m.last_analyzed) =~= start + ((spec_ser_str(m.name) + spec_ser_str(m.path) + spec_ser_u64(m.size_mb) + spec_ser_list::<(String, u32)>(m.file_types) + spec_ser_opt::<i64>(m.last_commit_date) + spec_ser_opt::<String>(m.current_branch) + spec_ser_list::<String>(m.branches) + spec_ser_opt::<String>(m.remote_url) + spec_ser_u32(m.commit_count)) + spec_ser_i64(m.last_analyzed)));
            }
        }
        put_bool(out, self.is_valid);
        proof {
            assert(out@ =~= start + ((spec_ser_str(m.name) + spec_ser_str(m.path) + spec_ser_u64(m.size_mb) + spec_ser_list::<(String, u32)>(m.file_types) + spec_ser_opt::<i64>(m.last_commit_date) + spec_ser_opt::<String>(m.current_branch) + spec_ser_list::<String>(m.branches) + spec_ser_opt::<String>(m.remote_url) + spec_ser_u32(m.commit_count) + spec_ser_i64(m.last_analyzed)) + spec_ser_bool(m.is_valid))) by {
                assert((start + (spec_ser_str(m.name) + spec_ser_str(m.path) + spec_ser_u64(m.size_mb) + spec_ser_list::<(String, u32)>(m.file_types) + spec_ser_opt::<i64>(m.last_commit_date) + spec_ser_opt::<String>(m.current_branch) + spec_ser_list::<String>(m.branches) + spec_ser_opt::<String>(m.remote_url) + spec_ser_u32(m.commit_count) + spec_ser_i64(m.last_analyzed))) + spec_ser_bool(m.is_valid) =~= start + ((spec_ser_str(m.name) + spec_ser_str(m.path) + spec_ser_u64(m.size_mb) + spec_ser_list::<(String, u32)>(m.file_types) + spec_ser_opt::<i64>(m.last_commit_date) + spec_ser_opt::<String>(m.current_branch) + spec_ser_list::<String>(m.branches) + spec_ser_opt::<String>(m.remote_url) + spec_ser_u32(m.commit_count) + spec_ser_i64(m.last_analyzed)) + spec_ser_bool(m.is_valid)));
            }
        }
        put_bool(out, self.is_pinned);
        proof {
            assert(out@ =~= start + ((spec_ser_str(m.name) + spec_ser_str(m.path) + spec_ser_u64(m.size_mb) + spec_ser_list::<(String, u32)>(m.file_types) + spec_ser_opt::<i64>(m.last_commit_date) + spec_ser_opt::<String>(m.current_branch) + spec_ser_list::<String>(m.branches) + spec_ser_opt::<String>(m.remote_url) + spec_ser_u32(m.commit_count) + spec_ser_i64(m.last_analyzed) + spec_ser_bool(m.is_valid)) + spec_ser_bool(m.is_pinned))) by {
                assert((start + (spec_ser_str(m.name) + spec_ser_str(m.path) + spec_ser_u64(m.size_mb) + spec_ser_list::<(String, u32)>(m.file_types) + spec_ser_opt::<i64>(m.last_commit_date) + spec_ser_opt::<String>(m.current_branch) + spec_ser_list::<String>(m.branches) + spec_ser_opt::<String>(m.remote_url) + spec_ser_u32(m.commit_count) + spec_ser_i64(m.last_analyzed) + spec_ser_bool(m.is_valid))) + spec_ser_bool(m.is_pinned) =~= start + ((spec_ser_str(m.name) + spec_ser_str(m.path) + spec_ser_u64(m.size_mb) + spec_ser_list::<(String, u32)>(m.file_types) + spec_ser_opt::<i64>(m.last_commit_date) + spec_ser_opt::<String>(m.current_branch) + spec_ser_list::<String>(m.branches) + spec_ser_opt::<String>(m.remote_url) + spec_ser_u32(m.commit_count) + spec_ser_i64(m.last_analyzed) + spec_ser_bool(m.is_valid)) + spec_ser_bool(m.is_pinned)));
            }
        }
        Encode::put(&self.pinned_at, out);
        proof {
            assert(out@ =~= start + ((spec_ser_str(m.name) + spec_ser_str(m.path) + spec_ser_u64(m.size_mb) + spec_ser_list::<(String, u32)>(m.file_types) + spec_ser_opt::<i64>(m.last_commit_date) + spec_ser_opt::<String>(m.current_branch) + spec_ser_list::<String>(m.branches) + spec_ser_opt::<String>(m.remote_url) + spec_ser_u32(m.commit_count) + spec_ser_i64(m.last_analyzed) + spec_ser_bool(m.is_valid) + spec_ser_bool(m.is_pinned)) + spec_ser_opt::<i64>(m.pinned_at))) by {
                assert((start + (spec_ser_str(m.name) + spec_ser_str(m.path) + spec_ser_u64(m.size_mb) + spec_ser_list::<(String, u32)>(m.file_types) + spec_ser_opt::<i64>(m.last_commit_date) + spec_ser_opt::<String>(m.current_branch) + spec_ser_list::<String>(m.branches) + spec_ser_opt::<String>(m.remote_url) + spec_ser_u32(m.commit_count) + spec_ser_i64(m.last_analyzed) + spec_ser_bool(m.is_valid) + spec_ser_bool(m.is_pinned))) + spec_ser_opt::<i64>(m.pinned_at) =~= start + ((spec_ser_str(m.name) + spec_ser_str(m.path) + spec_ser_u64(m.size_mb) + spec_ser_list::<(String, u32)>(m.file_types) + spec_ser_opt::<i64>(m.last_commit_date) + spec_ser_opt::<String>(m.current_branch) + spec_ser_list::<String>(m.branches) + spec_ser_opt::<String>(m.remote_url) + spec_ser_u32(m.commit_count) + spec_ser_i64(m.last_analyzed) + spec_ser_bool(m.is_valid) + spec_ser_bool(m.is_pinned)) + spec_ser_opt::<i64>(m.pinned_at)));
            }
        }
        Encode::put(&self.node_modules_info, out);
        proof {
            assert(out@ =~= start + ((spec_ser_str(m.name) + spec_ser_str(m.path) + spec_ser_u64(m.size_mb) + spec_ser_list::<(String, u32)>(m.file_types) + spec_ser_opt::<i64>(m.last_commit_date) + spec_ser_opt::<String>(m.current_branch) + spec_ser_list::<String>(m.branches) + spec_ser_opt::<String>(m.remote_url) + spec_ser_u32(m.commit_count) + spec_ser_i64(m.last_analyzed) + spec_ser_bool(m.is_valid) + spec_ser_bool(m.is_pinned) + spec_ser_opt::<i64>(m.pinned_at)) + spec_ser_opt::<NodeModulesInfo>(m.node_modules_info))) by {
                assert((start + (spec_ser_str(m.name) + spec_ser_str(m.path) + spec_ser_u64(m.size_mb) + spec_ser_list::<(String, u32)>(m.file_types) + spec_ser_opt::<i64>(m.last_commit_date) + spec_ser_opt::<String>(m.current_branch) + spec_ser_list::<String>(m.branches) + spec_ser_opt::<String>(m.remote_url) + spec_ser_u32(m.commit_count) + spec_ser_i64(m.last_analyzed) + spec_ser_bool(m.is_valid) + spec_ser_bool(m.is_pinned) + spec_ser_opt::<i64>(m.pinned_at))) + spec_ser_opt::<NodeModulesInfo>(m.node_modules_info) =~= start + ((spec_ser_str(m.name) + spec_ser_str(m.path) + spec_ser_u64(m.size_mb) + spec_ser_list::<(String, u32)>(m.file_types) + spec_ser_opt::<i64>(m.last_commit_date) + spec_ser_opt::<String>(m.current_branch) + spec_ser_list::<String>(m.branches) + spec_ser_opt::<String>(m.remote_url) + spec_ser_u32(m.commit_count) + spec_ser_i64(m.last_analyzed) + spec_ser_bool(m.is_valid) + spec_ser_bool(m.is_pinned) + spec_ser_opt::<i64>(m.pinned_at)) + spec_ser_opt::<NodeModulesInfo>(m.node_modules_info)));
            }
        }
        proof {
            assert(Self::spec_ser(m) =~= spec_ser_str(m.name) + spec_ser_str(m.path) + spec_ser_u64(m.size_mb) + spec_ser_list::<(String, u32)>(m.file_types) + spec_ser_opt::<i64>(m.last_commit_date) + spec_ser_opt::<String>(m.current_branch) + spec_ser_list::<String>(m.branches) + spec_ser_opt::<String>(m.remote_url) + spec_ser_u32(m.commit_count) + spec_ser_i64(m.last_analyzed) + spec_ser_bool(m.is_valid) + spec_ser_bool(m.is_pinned) + spec_ser_opt::<i64>(m.pinned_at) + spec_ser_opt::<NodeModulesInfo>(m.node_modules_info));
            assert(out@ =~= start + Self::spec_ser(m));
        }
    }

    #[verifier::rlimit(80)]
    fn take(s: &Vec<u8>, pos: usize) -> (r: Option<(GitRepository, usize)>) {
        let (x0, p0) = match take_str(s, pos) {
            Some(x) => x,
            None => {
                return None;
            },
        };
        let (x1, p1) = match take_str(s, p0) {
            Some(x) => x,
            None => {
                return None;
            },
        };
        let (x2, p2) = match take_u64(s, p1) {
            Some(x) => x,
            None => {
                return None;
            },
        };
        let (x3, p3) = match take_list::<(String, u32)>(s, p2) {
            Some(x) => x,
            None => {
                return None;
            },
        };
        let (x4, p4) = match <Option<i64> as Encode>::take(s, p3) {
            Some(x) => x,
            None => {
                return None;
            },
        };
        let (x5, p5) = match <Option<String> as Encode>::take(s, p4) {
            Some(x) => x,
            None => {
                return None;
            },
        };
        let (x6, p6) = match take_list::<String>(s, p5) {
            Some(x) => x,
            None => {
                return None;
            },
        };
        let (x7, p7) = match <Option<String> as Encode>::take(s, p6) {
            Some(x) => x,
            None => {
                return None;
            },
        };
        let (x8, p8) = match take_u32(s, p7) {
            Some(x) => x,
            None => {
                return None;
            },
        };
        let (x9, p9) = match take_i64(s, p8) {
            Some(x) => x,
            None => {
                return None;
            },
        };
        let (x10, p10) = match take_bool(s, p9) {
            Some(x) => x,
            None => {
                return None;
            },
        };
        let (x11, p11) = match take_bool(s, p10) {
            Some(x) => x,
            None => {
                return None;
            },
        };
        let (x12, p12) = match <Option<i64> as Encode>::take(s, p11) {
            Some(x) => x,
            None => {
                return None;
            },
        };
        let (x13, p13) = match <Option<NodeModulesInfo> as Encode>::take(s, p12) {
            Some(x) => x,
            None => {
                return None;
            },
        };
        let ghost parsed = (GitRepositoryModel { name: x0@, path: x1@, size_mb: x2, file_types: x3.deep_view(), last_commit_date: x4.deep_view(), current_branch: x5.deep_view(), branches: x6.deep_view(), remote_url: x7.deep_view(), commit_count: x8, last_analyzed: x9, is_valid: x10, is_pinned: x11, pinned_at: x12.deep_view(), node_modules_info: x13.deep_view() }, p13 as int);
        let v = GitRepository { name: x0, path: x1, size_mb: x2, file_types: x3, last_commit_date: x4, current_branch: x5, branches: x6, remote_url: x7, commit_count: x8, last_analyzed: x9, is_valid: x10, is_pinned: x11, pinned_at: x12, node_modules_info: x13 };
        proof {
            assert(Self::sp(s@, pos as int) == Some(parsed));
            assert(v.deep_view() == parsed.0) by {
                assert(v.deep_view().file_types =~= x3.deep_view()) by {
                    assert forall|j: int| 0 <= j < v.deep_view().file_types.len()
                        implies v.deep_view().file_types[j] == x3.deep_view()[j] by {
                        assert(x3.deep_view()[j] == x3@[j].deep_view());
                    }
                }
            }
        }
        Some((v, p13))
    }
}

/// A scan root on disk: its fields in order.
impl Encode for ScanPath {
    open spec fn spec_ser(m: ScanPathModel) -> Seq<u8> {
        spec_ser_str(m.path) + spec_ser_opt::<i64>(m.last_scanned) + spec_ser_u64(m.repository_count)
    }

    open spec fn sp(s: Seq<u8>, i: int) -> Option<(ScanPathModel, int)> {
        match sp_str(s, i) {
            Some((x0, p0)) => {
                match sp_opt::<i64>(s, p0) {
                    Some((x1, p1)) => {
                        match sp_u64(s, p1) {
                            Some((x2, p2)) => {
                                Some((ScanPathModel { path: x0, last_scanned: x1, repository_count: x2 }, p2))
                            },
                            None => None,
                        }
                    },
                    None => None,
                }
            },
            None => None,
        }
    }

    open spec fn bounded(m: ScanPathModel) -> bool {
        bstr(m.path)
    }

    #[verifier::rlimit(80)]
    #[verifier::spinoff_prover]
    proof fn lemma_rt(m: ScanPathModel, pre: Seq<u8>, suf: Seq<u8>) {
        let a0 = spec_ser_str(m.path);
        let a1 = spec_ser_opt::<i64>(m.last_scanned);
        let a2 = spec_ser_u64(m.repository_count);
        let s = pre + Self::spec_ser(m) + suf;
        let suf2 = suf;
        let suf1 = a2 + suf2;
        let suf0 = a1 + suf1;
        let pre0 = pre;
        let pre1 = pre0 + a0;
        let pre2 = pre1 + a1;
        assert(Self::spec_ser(m) == (a0 + a1 + a2));
        assert(s == (pre + (a0 + a1 + a2)) + suf2);
        lemma_seq_assoc(pre, (a0 + a1), a2);
        lemma_seq_assoc(pre + (a0 + a1), a2, suf2);
        assert(s == (pre + (a0 + a1)) + suf1);
        lemma_seq_assoc(pre, (a0), a1);
        lemma_seq_assoc(pre + (a0), a1, suf1);
        assert(s == (pre + (a0)) + suf0);
        assert(s == pre0 + a0 + suf0);
        lemma_rt_str(m.path, pre0, suf0);
        lemma_seq_assoc(pre0 + a0, a1, suf1);
        assert(s == pre1 + a1 + suf1);
        <Option<i64> as Encode>::lemma_rt(m.last_scanned, pre1, suf1);
        lemma_seq_assoc(pre1 + a1, a2, suf2);
        assert(s == pre2 + a2 + suf2);
        lemma_rt_u64(m.repository_count, pre2, suf2);
        assert(pre.len() + Self::spec_ser(m).len() == pre2.len() + a2.len());
    }

    #[verifier::rlimit(80)]
    fn put(&self, out: &mut Vec<u8>) {
        let ghost m = self.deep_view();
        let ghost start = out@;
        put_str(out, self.path.as_str());
        proof {
            assert(out@ =~= start + (spec_ser_str(m.path)));
        }
        Encode::put(&self.last_scanned, out);
        proof {
            assert(out@ =~= start + ((spec_ser_str(m.path)) + spec_ser_opt::<i64>(m.last_scanned))) by {
                assert((start + (spec_ser_str(m.path))) + spec_ser_opt::<i64>(m.last_scanned) =~= start + ((spec_ser_str(m.path)) + spec_ser_opt::<i64>(m.last_scanned)));
            }
        }
        put_u64(out, self.repository_count);
        proof {
            assert(out@ =~= start + ((spec_ser_str(m.path) + spec_ser_opt::<i64>(m.last_scanned)) + spec_ser_u64(m.repository_count))) by {
                assert((start + (spec_ser_str(m.path) + spec_ser_opt::<i64>(m.last_scanned))) + spec_ser_u64(m.repository_count) =~= start + ((spec_ser_str(m.path) + spec_ser_opt::<i64>(m.last_scanned)) + spec_ser_u64(m.repository_count)));
            }
        }
        proof {
            assert(Self::spec_ser(m) =~= spec_ser_str(m.path) + spec_ser_opt::<i64>(m.last_scanned) + spec_ser_u64(m.repository_count));
            assert(out@ =~= start + Self::spec_ser(m));
        }
    }

    #[verifier::rlimit(80)]
    fn take(s: &Vec<u8>, pos: usize) -> (r: Option<(ScanPath, usize)>) {
        let (x0, p0) = match take_str(s, pos) {
            Some(x) => x,
            None => {
                return None;
            },
        };
        let (x1, p1) = match <Option<i64> as Encode>::take(s, p0) {
            Some(x) => x,
            None => {
                return None;
            },
        };
        let (x2, p2) = match take_u64(s, p1) {
            Some(x) => x,
            None => {
                return None;
            },
        };
        let ghost parsed = (ScanPathModel { path: x0@, last_scanned: x1.deep_view(), repository_count: x2 }, p2 as int);
        let v = ScanPath { path: x0, last_scanned: x1, repository_count: x2 };
        proof {
            assert(Self::sp(s@, pos as int) == Some(parsed));
            assert(v.deep_view() == parsed.0) by {
            }
        }
        Some((v, p2))
    }
}

/// A collection on disk: its fields in order.
impl Encode for Collection {
    open spec fn spec_ser(m: CollectionModel) -> Seq<u8> {
        spec_ser_str(m.id) + spec_ser_str(m.name) + spec_ser_str(m.color) + spec_ser_list::<String>(m.repository_paths) + spec_ser_i64(m.created_at)
    }

    open spec fn sp(s: Seq<u8>, i: int) -> Option<(CollectionModel, int)> {
        match sp_str(s, i) {
            Some((x0, p0)) => {
                match sp_str(s, p0) {
                    Some((x1, p1)) => {
                        match sp_str(s, p1) {
                            Some((x2, p2)) => {
                                match sp_list::<String>(s, p2) {
                                    Some((x3, p3)) => {
                                        match sp_i64(s, p3) {
                                            Some((x4, p4)) => {
                                                Some((CollectionModel { id: x0, name: x1, color: x2, repository_paths: x3, created_at: x4 }, p4))
                                            },
                                            None => None,
                                        }
                                    },
                                    None => None,
                                }
                            },
                            None => None,
                        }
                    },
                    None => None,
                }
            },
            None => None,
        }
    }

    open spec fn bounded(m: CollectionModel) -> bool {
        bstr(m.id) && bstr(m.name) && bstr(m.color) && bounded_items::<String>(m.repository_paths)
    }

    #[verifier::rlimit(80)]
    #[verifier::spinoff_prover]
    proof fn lemma_rt(m: CollectionModel, pre: Seq<u8>, suf: Seq<u8>) {
        let a0 = spec_ser_str(m.id);
        let a1 = spec_ser_str(m.name);
        let a2 = spec_ser_str(m.color);
        let a3 = spec_ser_list::<String>(m.repository_paths);
        let a4 = spec_ser_i64(m.created_at);
        let s = pre + Self::spec_ser(m) + suf;
        let suf4 = suf;
        let suf3 = a4 + suf4;
        let suf2 = a3 + suf3;
        let suf1 = a2 + suf2;
        let suf0 = a1 + suf1;
        let pre0 = pre;
        let pre1 = pre0 + a0;
        let pre2 = pre1 + a1;
        let pre3 = pre2 + a2;
        let pre4 = pre3 + a3;
        assert(Self::spec_ser(m) == (a0 + a1 + a2 + a3 + a4));
        assert(s == (pre + (a0 + a1 + a2 + a3 + a4)) + suf4);
        lemma_seq_assoc(pre, (a0 + a1 + a2 + a3), a4);
        lemma_seq_assoc(pre + (a0 + a1 + a2 + a3), a4, suf4);
        assert(s == (pre + (a0 + a1 + a2 + a3)) + suf3);
        lemma_seq_assoc(pre, (a0 + a1 + a2), a3);
        lemma_seq_assoc(pre + (a0 + a1 + a2), a3, suf3);
        assert(s == (pre + (a0 + a1 + a2)) + suf2);
        lemma_seq_assoc(pre, (a0 + a1), a2);
        lemma_seq_assoc(pre + (a0 + a1), a2, suf2);
        assert(s == (pre + (a0 + a1)) + suf1);
        lemma_seq_assoc(pre, (a0), a1);
        lemma_seq_assoc(pre + (a0), a1, suf1);
        assert(s == (pre + (a0)) + suf0);
        assert(s == pre0 + a0 + suf0);
        lemma_rt_str(m.id, pre0, suf0);
        lemma_seq_assoc(pre0 + a0, a1, suf1);
        assert(s == pre1 + a1 + suf1);
        lemma_rt_str(m.name, pre1, suf1);
        lemma_seq_assoc(pre1 + a1, a2, suf2);
        assert(s == pre2 + a2 + suf2);
        lemma_rt_str(m.color, pre2, suf2);
        lemma_seq_assoc(pre2 + a2, a3, suf3);
        assert(s == pre3 + a3 + suf3);
        lemma_rt_list::<String>(m.repository_paths, pre3, suf3);
        lemma_seq_assoc(pre3 + a3, a4, suf4);
        assert(s == pre4 + a4 + suf4);
        lemma_rt_i64(m.created_at, pre4, suf4);
        assert(pre.len() + Self::spec_ser(m).len() == pre4.len() + a4.len());
    }

    #[verifier::rlimit(80)]
    fn put(&self, out: &mut Vec<u8>) {
        let ghost m = self.deep_view();
        let ghost start = out@;
        put_str(out, self.id.as_str());
        proof {
            assert(out@ =~= start + (spec_ser_str(m.id)));
        }
        put_str(out, self.name.as_str());
        proof {
            assert(out@ =~= start + ((spec_ser_str(m.id)) + spec_ser_str(m.name))) by {
                assert((start + (spec_ser_str(m.id))) + spec_ser_str(m.name) =~= start + ((spec_ser_str(m.id)) + spec_ser_str(m.name)));
            }
        }
        put_str(out, self.color.as_str());
        proof {
            assert(out@ =~= start + ((spec_ser_str(m.id) + spec_ser_str(m.name)) + spec_ser_str(m.color))) by {
                assert((start + (spec_ser_str(m.id) + spec_ser_str(m.name))) + spec_ser_str(m.color) =~= start + ((spec_ser_str(m.id) + spec_ser_str(m.name)) + spec_ser_str(m.color)));
            }
        }
        put_list::<String>(out, &self.repository_paths);
        proof {
            assert(out@ =~= start + ((spec_ser_str(m.id) + spec_ser_str(m.name) + spec_ser_str(m.color)) + spec_ser_list::<String>(m.repository_paths))) by {
                assert((start + (spec_ser_str(m.id) + spec_ser_str(m.name) + spec_ser_str(m.color))) + spec_ser_list::<String>(m.repository_paths) =~= start + ((spec_ser_str(m.id) + spec_ser_str(m.name) + spec_ser_str(m.color)) + spec_ser_list::<String>(m.repository_paths)));
            }
        }
        put_i64(out, self.created_at);
        proof {
            assert(out@ =~= start + ((spec_ser_str(m.id) + spec_ser_str(m.name) + spec_ser_str(m.color) + spec_ser_list::<String>(m.repository_paths)) + spec_ser_i64(m.created_at))) by {
                assert((start + (spec_ser_str(m.id) + spec_ser_str(m.name) + spec_ser_str(m.color) + spec_ser_list::<String>(m.repository_paths))) + spec_ser_i64(m.created_at) =~= start + ((spec_ser_str(m.id) + spec_ser_str(m.name) + spec_ser_str(m.color) + spec_ser_list::<String>(m.repository_paths)) + spec_ser_i64(m.created_at)));
            }
        }
        proof {
            assert(Self::spec_ser(m) =~= spec_ser_str(m.id) + spec_ser_str(m.name) + spec_ser_str(m.color) + spec_ser_list::<String>(m.repository_paths) + spec_ser_i64(m.created_at));
            assert(out@ =~= start + Self::spec_ser(m));
        }
    }

    #[verifier::rlimit(80)]
    fn take(s: &Vec<u8>, pos: usize) -> (r: Option<(Collection, usize)>) {
        let (x0, p0) = match take_str(s, pos) {
            Some(x) => x,
            None => {
                return None;
            },
        };
        let (x1, p1) = match take_str(s, p0) {
            Some(x) => x,
            None => {
                return None;
            },
        };
        let (x2, p2) = match take_str(s, p1) {
            Some(x) => x,
            None => {
                return None;
            },
        };
        let (x3, p3) = match take_list::<String>(s, p2) {
            Some(x) => x,
            None => {
                return None;
            },
        };
        let (x4, p4) = match take_i64(s, p3) {
            Some(x) => x,
            None => {
                return None;
            },
        };
        let ghost parsed = (CollectionModel { id: x0@, name: x1@, color: x2@, repository_paths: x3.deep_view(), created_at: x4 }, p4 as int);
        let v = Collection { id: x0, name: x1, color: x2, repository_paths: x3, created_at: x4 };
        proof {
            assert(Self::sp(s@, pos as int) == Some(parsed));
            assert(v.deep_view() == parsed.0) by {
            }
        }
        Some((v, p4))
    }
}

/// A repository record as the prior schema generation stored it: no pin
/// state and no dependency summary.
pub struct OldGitRepository {
    pub name: String,
    pub path: String,
    pub size_mb: u64,
    pub file_types: Vec<(String, u32)>,
    pub last_commit_date: Option<i64>,
    pub current_branch: Option<String>,
    pub branches: Vec<String>,
    pub remote_url: Option<String>,
    pub commit_count: u32,
    pub last_analyzed: i64,
    pub is_valid: bool,
}

/// Mathematical model of an [`OldGitRepository`] record.
pub struct OldGitRepositoryModel {
    pub name: Seq<char>,
    pub path: Seq<char>,
    pub size_mb: u64,
    pub file_types: Seq<(Seq<char>, u32)>,
    pub last_commit_date: Option<i64>,
    pub current_branch: Option<Seq<char>>,
    pub branches: Seq<Seq<char>>,
    pub remote_url: Option<Seq<char>>,
    pub commit_count: u32,
    pub last_analyzed: i64,
    pub is_valid: bool,
}

impl View for OldGitRepository {
    type V = OldGitRepositoryModel;

    open spec fn view(&self) -> OldGitRepositoryModel {
        OldGitRepositoryModel {
            name: self.name@,
            path: self.path@,
            size_mb: self.size_mb,
            file_types: self.file_types@.map_values(|e: (String, u32)| (e.0@, e.1)),
            last_commit_date: self.last_commit_date,
            current_branch: self.current_branch.deep_view(),
            branches: self.branches.deep_view(),
            remote_url: self.remote_url.deep_view(),
            commit_count: self.commit_count,
            last_analyzed: self.last_analyzed,
            is_valid: self.is_valid,
        }
    }
}

impl DeepView for OldGitRepository {
    type V = OldGitRepositoryModel;

    open spec fn deep_view(&self) -> OldGitRepositoryModel {
        self.view()
    }
}

/// An old-generation record on disk: its fields in order.
impl Encode for OldGitRepository {
    open spec fn spec_ser(m: OldGitRepositoryModel) -> Seq<u8> {
        spec_ser_str(m.name) + spec_ser_str(m.path) + spec_ser_u64(m.size_mb) + spec_ser_list::<(String, u32)>(m.file_types) + spec_ser_opt::<i64>(m.last_commit_date) + spec_ser_opt::<String>(m.current_branch) + spec_ser_list::<String>(m.branches) + spec_ser_opt::<String>(m.remote_url) + spec_ser_u32(m.commit_count) + spec_ser_i64(m.last_analyzed) + spec_ser_bool(m.is_valid)
    }

    open spec fn sp(s: Seq<u8>, i: int) -> Option<(OldGitRepositoryModel, int)> {
        match sp_str(s, i) {
            Some((x0, p0)) => {
                match sp_str(s, p0) {
                    Some((x1, p1)) => {
                        match sp_u64(s, p1) {
                            Some((x2, p2)) => {
                                match sp_list::<(String, u32)>(s, p2) {
                                    Some((x3, p3)) => {
                                        match sp_opt::<i64>(s, p3) {
                                            Some((x4, p4)) => {
                                                match sp_opt::<String>(s, p4) {
                                                    Some((x5, p5)) => {
                                                        match sp_list::<String>(s, p5) {
                                                            Some((x6, p6)) => {
                                                                match sp_opt::<String>(s, p6) {
                                                                    Some((x7, p7)) => {
                                                                        match sp_u32(s, p7) {
                                                                            Some((x8, p8)) => {
                                                                                match sp_i64(s, p8) {
                                                                                    Some((x9, p9)) => {
                                                                                        match sp_bool(s, p9) {
                                                                                            Some((x10, p10)) => {
                                                                                                Some((OldGitRepositoryModel { name: x0, path: x1, size_mb: x2, file_types: x3, last_commit_date: x4, current_branch: x5, branches: x6, remote_url: x7, commit_count: x8, last_analyzed: x9, is_valid: x10 }, p10))
                                                                                            },
                                                                                            None => None,
                                                                                        }
                                                                                    },
                                                                                    None => None,
                                                                                }
                                                                            },
                                                                            None => None,
                                                                        }
                                                                    },
                                                                    None => None,
                                                                }
                                                            },
                                                            None => None,
                                                        }
                                                    },
                                                    None => None,
                                                }
                                            },
                                            None => None,
                                        }
                                    },
                                    None => None,
                                }
                            },
                            None => None,
                        }
                    },
                    None => None,
                }
            },
            None => None,
        }
    }

    open spec fn bounded(m: OldGitRepositoryModel) -> bool {
        bstr(m.name) && bstr(m.path) && bounded_items::<(String, u32)>(m.file_types) && <Option<String> as Encode>::bounded(m.current_branch) && bounded_items::<String>(m.branches) && <Option<String> as Encode>::bounded(m.remote_url)
    }

    #[verifier::rlimit(80)]
    #[verifier::spinoff_prover]
    proof fn lemma_rt(m: OldGitRepositoryModel, pre: Seq<u8>, suf: Seq<u8>) {
        let a0 = spec_ser_str(m.name);
        let a1 = spec_ser_str(m.path);
        let a2 = spec_ser_u64(m.size_mb);
        let a3 = spec_ser_list::<(String, u32)>(m.file_types);
        let a4 = spec_ser_opt::<i64>(m.last_commit_date);
        let a5 = spec_ser_opt::<String>(m.current_branch);
        let a6 = spec_ser_list::<String>(m.branches);
        let a7 = spec_ser_opt::<String>(m.remote_url);
        let a8 = spec_ser_u32(m.commit_count);
        let a9 = spec_ser_i64(m.last_analyzed);
        let a10 = spec_ser_bool(m.is_valid);
        let s = pre + Self::spec_ser(m) + suf;
        let suf10 = suf;
        let suf9 = a10 + suf10;
        let suf8 = a9 + suf9;
        let suf7 = a8 + suf8;
        let suf6 = a7 + suf7;
        let suf5 = a6 + suf6;
        let suf4 = a5 + suf5;
        let suf3 = a4 + suf4;
        let suf2 = a3 + suf3;
        let suf1 = a2 + suf2;
        let suf0 = a1 + suf1;
        let pre0 = pre;
        let pre1 = pre0 + a0;
        let pre2 = pre1 + a1;
        let pre3 = pre2 + a2;
        let pre4 = pre3 + a3;
        let pre5 = pre4 + a4;
        let pre6 = pre5 + a5;
        let pre7 = pre6 + a6;
        let pre8 = pre7 + a7;
        let pre9 = pre8 + a8;
        let pre10 = pre9 + a9;
        assert(Self::spec_ser(m) == (a0 + a1 + a2 + a3 + a4 + a5 + a6 + a7 + a8 + a9 + a10));
        assert(s == (pre + (a0 + a1 + a2 + a3 + a4 + a5 + a6 + a7 + a8 + a9 + a10)) + suf10);
        lemma_seq_assoc(pre, (a0 + a1 + a2 + a3 + a4 + a5 + a6 + a7 + a8 + a9), a10);
        lemma_seq_assoc(pre + (a0 + a1 + a2 + a3 + a4 + a5 + a6 + a7 + a8 + a9), a10, suf10);
        assert(s == (pre + (a0 + a1 + a2 + a3 + a4 + a5 + a6 + a7 + a8 + a9)) + suf9);
        lemma_seq_assoc(pre, (a0 + a1 + a2 + a3 + a4 + a5 + a6 + a7 + a8), a9);
        lemma_seq_assoc(pre + (a0 + a1 + a2 + a3 + a4 + a5 + a6 + a7 + a8), a9, suf9);
        assert(s == (pre + (a0 + a1 + a2 + a3 + a4 + a5 + a6 + a7 + a8)) + suf8);
        lemma_seq_assoc(pre, (a0 + a1 + a2 + a3 + a4 + a5 + a6 + a7), a8);
        lemma_seq_assoc(pre + (a0 + a1 + a2 + a3 + a4 + a5 + a6 + a7), a8, suf8);
        assert(s == (pre + (a0 + a1 + a2 + a3 + a4 + a5 + a6 + a7)) + suf7);
        lemma_seq_assoc(pre, (a0 + a1 + a2 + a3 + a4 + a5 + a6), a7);
        lemma_seq_assoc(pre + (a0 + a1 + a2 + a3 + a4 + a5 + a6), a7, suf7);
        assert(s == (pre + (a0 + a1 + a2 + a3 + a4 + a5 + a6)) + suf6);
        lemma_seq_assoc(pre, (a0 + a1 + a2 + a3 + a4 + a5), a6);
        lemma_seq_assoc(pre + (a0 + a1 + a2 + a3 + a4 + a5), a6, suf6);
        assert(s == (pre + (a0 + a1 + a2 + a3 + a4 + a5)) + suf5);
        lemma_seq_assoc(pre, (a0 + a1 + a2 + a3 + a4), a5);
        lemma_seq_assoc(pre + (a0 + a1 + a2 + a3 + a4), a5, suf5);
        assert(s == (pre + (a0 + a1 + a2 + a3 + a4)) + suf4);
        lemma_seq_assoc(pre, (a0 + a1 + a2 + a3), a4);
        lemma_seq_assoc(pre + (a0 + a1 + a2 + a3), a4, suf4);
        assert(s == (pre + (a0 + a1 + a2 + a3)) + suf3);
        lemma_seq_assoc(pre, (a0 + a1 + a2), a3);
        lemma_seq_assoc(pre + (a0 + a1 + a2), a3, suf3);
        assert(s == (pre + (a0 + a1 + a2)) + suf2);
        lemma_seq_assoc(pre, (a0 + a1), a2);
        lemma_seq_assoc(pre + (a0 + a1), a2, suf2);
        assert(s == (pre + (a0 + a1)) + suf1);
        lemma_seq_assoc(pre, (a0), a1);
        lemma_seq_assoc(pre + (a0), a1, suf1);
        assert(s == (pre + (a0)) + suf0);
        assert(s == pre0 + a0 + suf0);
        lemma_rt_str(m.name, pre0, suf0);
        lemma_seq_assoc(pre0 + a0, a1, suf1);
        assert(s == pre1 + a1 + suf1);
        lemma_rt_str(m.path, pre1, suf1);
        lemma_seq_assoc(pre1 + a1, a2, suf2);
        assert(s == pre2 + a2 + suf2);
        lemma_rt_u64(m.size_mb, pre2, suf2);
        lemma_seq_assoc(pre2 + a2, a3, suf3);
        assert(s == pre3 + a3 + suf3);
        lemma_rt_list::<(String, u32)>(m.file_types, pre3, suf3);
        lemma_seq_assoc(pre3 + a3, a4, suf4);
        assert(s == pre4 + a4 + suf4);
        <Option<i64> as Encode>::lemma_rt(m.last_commit_date, pre4, suf4);
        lemma_seq_assoc(pre4 + a4, a5, suf5);
        assert(s == pre5 + a5 + suf5);
        <Option<String> as Encode>::lemma_rt(m.current_branch, pre5, suf5);
        lemma_seq_assoc(pre5 + a5, a6, suf6);
        assert(s == pre6 + a6 + suf6);
        lemma_rt_list::<String>(m.branches, pre6, suf6);
        lemma_seq_assoc(pre6 + a6, a7, suf7);
        assert(s == pre7 + a7 + suf7);
        <Option<String> as Encode>::lemma_rt(m.remote_url, pre7, suf7);
        lemma_seq_assoc(pre7 + a7, a8, suf8);
        assert(s == pre8 + a8 + suf8);
        lemma_rt_u32(m.commit_count, pre8, suf8);
        lemma_seq_assoc(pre8 + a8, a9, suf9);
        assert(s == pre9 + a9 + suf9);
        lemma_rt_i64(m.last_analyzed, pre9, suf9);
        lemma_seq_assoc(pre9 + a9, a10, suf10);
        assert(s == pre10 + a10 + suf10);
        <bool as Encode>::lemma_rt(m.is_valid, pre10, suf10);
        assert(pre.len() + Self::spec_ser(m).len() == pre10.len() + a10.len());
    }

    #[verifier::rlimit(80)]
    fn put(&self, out: &mut Vec<u8>) {
        let ghost m = self.deep_view();
        let ghost start = out@;
        proof {
            assert(m.file_types =~= self.file_types.deep_view()) by {
                assert forall|j: int| 0 <= j < m.file_types.len() implies m.file_types[j]
                    == self.file_types.deep_view()[j] by {
                    assert(self.file_types.deep_view()[j] == self.file_types@[j].deep_view());
                }
            }
        }
        put_str(out, self.name.as_str());
        proof {
            assert(out@ =~= start + (spec_ser_str(m.name)));
        }
        put_str(out, self.path.as_str());
        proof {
            assert(out@ =~= start + ((spec_ser_str(m.name)) + spec_ser_str(m.path))) by {
                assert((start + (spec_ser_str(m.name))) + spec_ser_str(m.path) =~= start + ((spec_ser_str(m.name)) + spec_ser_str(m.path)));
            }
        }
        put_u64(out, self.size_mb);
        proof {
            assert(out@ =~= start + ((spec_ser_str(m.name) + spec_ser_str(m.path)) + spec_ser_u64(m.size_mb))) by {
                assert((start + (spec_ser_str(m.name) + spec_ser_str(m.path))) + spec_ser_u64(m.size_mb) =~= start + ((spec_ser_str(m.name) + spec_ser_str(m.path)) + spec_ser_u64(m.size_mb)));
            }
        }
        put_list::<(String, u32)>(out, &self.file_types);
        proof {
            assert(out@ =~= start + ((spec_ser_str(m.name) + spec_ser_str(m.path) + spec_ser_u64(m.size_mb)) + spec_ser_list::<(String, u32)>(m.file_types))) by {
                assert((start + (spec_ser_str(m.name) + spec_ser_str(m.path) + spec_ser_u64(m.size_mb))) + spec_ser_list::<(String, u32)>(m.file_types) =~= start + ((spec_ser_str(m.name) + spec_ser_str(m.path) + spec_ser_u64(m.size_mb)) + spec_ser_list::<(String, u32)>(m.file_types)));
            }
        }
        Encode::put(&self.last_commit_date, out);
        proof {
            assert(out@ =~= start + ((spec_ser_str(m.name) + spec_ser_str(m.path) + spec_ser_u64(m.size_mb) + spec_ser_list::<(String, u32)>(m.file_types)) + spec_ser_opt::<i64>(m.last_commit_date))) by {
                assert((start + (spec_ser_str(m.name) + spec_ser_str(m.path) + spec_ser_u64(m.size_mb) + spec_ser_list::<(String, u32)>(m.file_types))) + spec_ser_opt::<i64>(m.last_commit_date) =~= start + ((spec_ser_str(m.name) + spec_ser_str(m.path) + spec_ser_u64(m.size_mb) + spec_ser_list::<(String, u32)>(m.file_types)) + spec_ser_opt::<i64>(m.last_commit_date)));
            }
        }
        Encode::put(&self.current_branch, out);
        proof {
            assert(out@ =~= start + ((spec_ser_str(m.name) + spec_ser_str(m.path) + spec_ser_u64(m.size_mb) + spec_ser_list::<(String, u32)>(m.file_types) + spec_ser_opt::<i64>(m.last_commit_date)) + spec_ser_opt::<String>(m.current_branch))) by {
                assert((start + (spec_ser_str(m.name) + spec_ser_str(m.path) + spec_ser_u64(m.size_mb) + spec_ser_list::<(String, u32)>(m.file_types) + spec_ser_opt::<i64>(m.last_commit_date))) + spec_ser_opt::<String>(m.current_branch) =~= start + ((spec_ser_str(m.name) + spec_ser_str(m.path) + spec_ser_u64(m.size_mb) + spec_ser_list::<(String, u32)>(m.file_types) + spec_ser_opt::<i64>(m.last_commit_date)) + spec_ser_opt::<String>(m.current_branch)));
            }
        }
        put_list::<String>(out, &self.branches);
        proof {
            assert(out@ =~= start + ((spec_ser_str(m.name) + spec_ser_str(m.path) + spec_ser_u64(m.size_mb) + spec_ser_list::<(String, u32)>(m.file_types) + spec_ser_opt::<i64>(m.last_commit_date) + spec_ser_opt::<String>(m.current_branch)) + spec_ser_list::<String>(m.branches))) by {
                assert((start + (spec_ser_str(m.name) + spec_ser_str(m.path) + spec_ser_u64(m.size_mb) + spec_ser_list::<(String, u32)>(m.file_types) + spec_ser_opt::<i64>(m.last_commit_date) + spec_ser_opt::<String>(m.current_branch))) + spec_ser_list::<String>(m.branches) =~= start + ((spec_ser_str(m.name) + spec_ser_str(m.path) + spec_ser_u64(m.size_mb) + spec_ser_list::<(String, u32)>(m.file_types) + spec_ser_opt::<i64>(m.last_commit_date) + spec_ser_opt::<String>(m.current_branch)) + spec_ser_list::<String>(m.branches)));
            }
        }
        Encode::put(&self.remote_url, out);
        proof {
            assert(out@ =~= start + ((spec_ser_str(m.name) + spec_ser_str(m.path) + spec_ser_u64(m.size_mb) + spec_ser_list::<(String, u32)>(m.file_types) + spec_ser_opt::<i64>(m.last_commit_date) + spec_ser_opt::<String>(m.current_branch) + spec_ser_list::<String>(m.branches)) + spec_ser_opt::<String>(m.remote_url))) by {
                assert((start + (spec_ser_str(m.name) + spec_ser_str(m.path) + spec_ser_u64(m.size_mb) + spec_ser_list::<(String, u32)>(m.file_types) + spec_ser_opt::<i64>(m.last_commit_date) + spec_ser_opt::<String>(m.current_branch) + spec_ser_list::<String>(m.branches))) + spec_ser_opt::<String>(m.remote_url) =~= start + ((spec_ser_str(m.name) + spec_ser_str(m.path) + spec_ser_u64(m.size_mb) + spec_ser_list::<(String, u32)>(m.file_types) + spec_ser_opt::<i64>(m.last_commit_date) + spec_ser_opt::<String>(m.current_branch) + spec_ser_list::<String>(m.branches)) + spec_ser_opt::<String>(m.remote_url)));
            }
        }
        put_u32(out, self.commit_count);
        proof {
            assert(out@ =~= start + ((spec_ser_str(m.name) + spec_ser_str(m.path) + spec_ser_u64(m.size_mb) + spec_ser_list::<(String, u32)>(m.file_types) + spec_ser_opt::<i64>(m.last_commit_date) + spec_ser_opt::<String>(m.current_branch) + spec_ser_list::<String>(m.branches) + spec_ser_opt::<String>(m.remote_url)) + spec_ser_u32(m.commit_count))) by {
                assert((start + (spec_ser_str(m.name) + spec_ser_str(m.path) + spec_ser_u64(m.size_mb) + spec_ser_list::<(String, u32)>(m.file_types) + spec_ser_opt::<i64>(m.last_commit_date) + spec_ser_opt::<String>(m.current_branch) + spec_ser_list::<String>(m.branches) + spec_ser_opt::<String>(m.remote_url))) + spec_ser_u32(m.commit_count) =~= start + ((spec_ser_str(m.name) + spec_ser_str(m.path) + spec_ser_u64(m.size_mb) + spec_ser_list::<(String, u32)>(m.file_types) + spec_ser_opt::<i64>(m.last_commit_date) + spec_ser_opt::<String>(m.current_branch) + spec_ser_list::<String>(m.branches) + spec_ser_opt::<String>(m.remote_url)) + spec_ser_u32(m.commit_count)));
            }
        }
        put_i64(out, self.last_analyzed);
        proof {
            assert(out@ =~= start + ((spec_ser_str(m.name) + spec_ser_str(m.path) + spec_ser_u64(m.size_mb) + spec_ser_list::<(String, u32)>(m.file_types) + spec_ser_opt::<i64>(m.last_commit_date) + spec_ser_opt::<String>(m.current_branch) + spec_ser_list::<String>(m.branches) + spec_ser_opt::<String>(m.remote_url) + spec_ser_u32(m.commit_count)) + spec_ser_i64(m.last_analyzed))) by {
                assert((start + (spec_ser_str(m.name) + spec_ser_str(m.path) + spec_ser_u64(m.size_mb) + spec_ser_list::<(String, u32)>(m.file_types) + spec_ser_opt::<i64>(m.last_commit_date) + spec_ser_opt::<String>(m.current_branch) + spec_ser_list::<String>(m.branches) + spec_ser_opt::<String>(m.remote_url) + spec_ser_u32(m.commit_count))) + spec_ser_i64(m.last_analyzed) =~= start + ((spec_ser_str(m.name) + spec_ser_str(m.path) + spec_ser_u64(m.size_mb) + spec_ser_list::<(String, u32)>(m.file_types) + spec_ser_opt::<i64>(m.last_commit_date) + spec_ser_opt::<String>(m.current_branch) + spec_ser_list::<String>(m.branches) + spec_ser_opt::<String>(m.remote_url) + spec_ser_u32(m.commit_count)) + spec_ser_i64(m.last_analyzed)));
            }
        }
        put_bool(out, self.is_valid);
        proof {
            assert(out@ =~= start + ((spec_ser_str(m.name) + spec_ser_str(m.path) + spec_ser_u64(m.size_mb) + spec_ser_list::<(String, u32)>(m.file_types) + spec_ser_opt::<i64>(m.last_commit_date) + spec_ser_opt::<String>(m.current_branch) + spec_ser_list::<String>(m.branches) + spec_ser_opt::<String>(m.remote_url) + spec_ser_u32(m.commit_count) + spec_ser_i64(m.last_analyzed)) + spec_ser_bool(m.is_valid))) by {
                assert((start + (spec_ser_str(m.name) + spec_ser_str(m.path) + spec_ser_u64(m.size_mb) + spec_ser_list::<(String, u32)>(m.file_types) + spec_ser_opt::<i64>(m.last_commit_date) + spec_ser_opt::<String>(m.current_branch) + spec_ser_list::<String>(m.branches) + spec_ser_opt::<String>(m.remote_url) + spec_ser_u32(m.commit_count) + spec_ser_i64(m.last_analyzed))) + spec_ser_bool(m.is_valid) =~= start + ((spec_ser_str(m.name) + spec_ser_str(m.path) + spec_ser_u64(m.size_mb) + spec_ser_list::<(String, u32)>(m.file_types) + spec_ser_opt::<i64>(m.last_commit_date) + spec_ser_opt::<String>(m.current_branch) + spec_ser_list::<String>(m.branches) + spec_ser_opt::<String>(m.remote_url) + spec_ser_u32(m.commit_count) + spec_ser_i64(m.last_analyzed)) + spec_ser_bool(m.is_valid)));
            }
        }
        proof {
            assert(Self::spec_ser(m) =~= spec_ser_str(m.name) + spec_ser_str(m.path) + spec_ser_u64(m.size_mb) + spec_ser_list::<(String, u32)>(m.file_types) + spec_ser_opt::<i64>(m.last_commit_date) + spec_ser_opt::<String>(m.current_branch) + spec_ser_list::<String>(m.branches) + spec_ser_opt::<String>(m.remote_url) + spec_ser_u32(m.commit_count) + spec_ser_i64(m.last_analyzed) + spec_ser_bool(m.is_valid));
            assert(out@ =~= start + Self::spec_ser(m));
        }
    }

    #[verifier::rlimit(80)]
    fn take(s: &Vec<u8>, pos: usize) -> (r: Option<(OldGitRepository, usize)>) {
        let (x0, p0) = match take_str(s, pos) {
            Some(x) => x,
            None => {
                return None;
            },
        };
        let (x1, p1) = match take_str(s, p0) {
            Some(x) => x,
            None => {
                return None;
            },
        };
        let (x2, p2) = match take_u64(s, p1) {
            Some(x) => x,
            None => {
                return None;
            },
        };
        let (x3, p3) = match take_list::<(String, u32)>(s, p2) {
            Some(x) => x,
            None => {
                return None;
            },
        };
        let (x4, p4) = match <Option<i64> as Encode>::take(s, p3) {
            Some(x) => x,
            None => {
                return None;
            },
        };
        let (x5, p5) = match <Option<String> as Encode>::take(s, p4) {
            Some(x) => x,
            None => {
                return None;
            },
        };
        let (x6, p6) = match take_list::<String>(s, p5) {
            Some(x) => x,
            None => {
                return None;
            },
        };
        let (x7, p7) = match <Option<String> as Encode>::take(s, p6) {
            Some(x) => x,
            None => {
                return None;
            },
        };
        let (x8, p8) = match take_u32(s, p7) {
            Some(x) => x,
            None => {
                return None;
            },
        };
        let (x9, p9) = match take_i64(s, p8) {
            Some(x) => x,
            None => {
                return None;
            },
        };
        let (x10, p10) = match take_bool(s, p9) {
            Some(x) => x,
            None => {
                return None;
            },
        };
        let ghost parsed = (OldGitRepositoryModel { name: x0@, path: x1@, size_mb: x2, file_types: x3.deep_view(), last_commit_date: x4.deep_view(), current_branch: x5.deep_view(), branches: x6.deep_view(), remote_url: x7.deep_view(), commit_count: x8, last_analyzed: x9, is_valid: x10 }, p10 as int);
        let v = OldGitRepository { name: x0, path: x1, size_mb: x2, file_types: x3, last_commit_date: x4, current_branch: x5, branches: x6, remote_url: x7, commit_count: x8, last_analyzed: x9, is_valid: x10 };
        proof {
            assert(Self::sp(s@, pos as int) == Some(parsed));
            assert(v.deep_view() == parsed.0) by {
                assert(v.deep_view().file_types =~= x3.deep_view()) by {
                    assert forall|j: int| 0 <= j < v.deep_view().file_types.len()
                        implies v.deep_view().file_types[j] == x3.deep_view()[j] by {
                        assert(x3.deep_view()[j] == x3@[j].deep_view());
                    }
                }
            }
        }
        Some((v, p10))
    }
}


/// The prior generation of the whole document: no collections.
pub struct OldRepositoryCache {
    pub repositories: Vec<OldGitRepository>,
    pub scan_paths: Vec<ScanPath>,
    pub last_updated: i64,
    pub cache_version: String,
}

/// Mathematical model of an [`OldRepositoryCache`] document.
pub struct OldRepositoryCacheModel {
    pub repositories: Seq<OldGitRepositoryModel>,
    pub scan_paths: Seq<ScanPathModel>,
    pub last_updated: i64,
    pub cache_version: Seq<char>,
}

impl View for OldRepositoryCache {
    type V = OldRepositoryCacheModel;

    open spec fn view(&self) -> OldRepositoryCacheModel {
        OldRepositoryCacheModel {
            repositories: self.repositories.deep_view(),
            scan_paths: self.scan_paths.deep_view(),
            last_updated: self.last_updated,
            cache_version: self.cache_version@,
        }
    }
}

/// The current document generation's tag byte.
pub open spec fn current_tag() -> u8 {
    2
}

/// The prior document generation's tag byte.
pub open spec fn prior_tag() -> u8 {
    1
}

/// The serialized form of a current-generation document: its tag byte, then
/// its repositories, scan roots, collections, write time and version string.
pub open spec fn spec_ser_doc(m: RepositoryCacheModel) -> Seq<u8> {
    seq![current_tag()] + spec_ser_list::<GitRepository>(m.repositories) + spec_ser_list::<
        ScanPath,
    >(m.scan_paths) + spec_ser_list::<Collection>(m.collections) + spec_ser_i64(m.last_updated)
        + spec_ser_str(m.cache_version)
}

/// Parse a whole current-generation document; every byte must be consumed.
pub open spec fn sp_doc_v2(s: Seq<u8>) -> Option<RepositoryCacheModel> {
    if s.len() < 1 || s[0] != current_tag() {
        None
    } else {
        match sp_list::<GitRepository>(s, 1) {
            Some((repositories, p1)) => match sp_list::<ScanPath>(s, p1) {
                Some((scan_paths, p2)) => match sp_list::<Collection>(s, p2) {
                    Some((collections, p3)) => match sp_i64(s, p3) {
                        Some((last_updated, p4)) => match sp_str(s, p4) {
                            Some((cache_version, p5)) => if p5 == s.len() {
                                Some(
                                    RepositoryCacheModel {
                                        repositories,
                                        scan_paths,
                                        collections,
                                        last_updated,
                                        cache_version,
                                    },
                                )
                            } else {
                                None
                            },
                            None => None,
                        },
                        None => None,
                    },
                    None => None,
                },
                None => None,
            },
            None => None,
        }
    }
}

/// The serialized form of a prior-generation document.
pub open spec fn spec_ser_old_doc(m: OldRepositoryCacheModel) -> Seq<u8> {
    seq![prior_tag()] + spec_ser_list::<OldGitRepository>(m.repositories) + spec_ser_list::<
        ScanPath,
    >(m.scan_paths) + spec_ser_i64(m.last_updated) + spec_ser_str(m.cache_version)
}

/// Parse a whole prior-generation document; every byte must be consumed.
pub open spec fn sp_doc_v1(s: Seq<u8>) -> Option<OldRepositoryCacheModel> {
    if s.len() < 1 || s[0] != prior_tag() {
        None
    } else {
        match sp_list::<OldGitRepository>(s, 1) {
            Some((repositories, p1)) => match sp_list::<ScanPath>(s, p1) {
                Some((scan_paths, p2)) => match sp_i64(s, p2) {
                    Some((last_updated, p3)) => match sp_str(s, p3) {
                        Some((cache_version, p4)) => if p4 == s.len() {
                            Some(
                                OldRepositoryCacheModel {
                                    repositories,
                                    scan_paths,
                                    last_updated,
                                    cache_version,
                                },
                            )
                        } else {
                            None
                        },
                        None => None,
                    },
                    None => None,
                },
                None => None,
            },
            None => None,
        }
    }
}

/// A document small enough for its length prefixes: every machine document is.
pub open spec fn bounded_doc(m: RepositoryCacheModel) -> bool {
    &&& bounded_items::<GitRepository>(m.repositories)
    &&& bounded_items::<ScanPath>(m.scan_paths)
    &&& bounded_items::<Collection>(m.collections)
    &&& bstr(m.cache_version)
}

/// A prior-generation document small enough for its length prefixes.
pub open spec fn bounded_old_doc(m: OldRepositoryCacheModel) -> bool {
    &&& bounded_items::<OldGitRepository>(m.repositories)
    &&& bounded_items::<ScanPath>(m.scan_paths)
    &&& bstr(m.cache_version)
}

/// Round-trip: parsing a serialized document restores it, field for field,
/// empty maps and collections included.
#[verifier::rlimit(80)]
#[verifier::spinoff_prover]
pub proof fn lemma_document_round_trip(m: RepositoryCacheModel)
    requires
        bounded_doc(m),
    ensures
        sp_doc_v2(spec_ser_doc(m)) == Some(m),
{
    let a0 = spec_ser_list::<GitRepository>(m.repositories);
    let a1 = spec_ser_list::<ScanPath>(m.scan_paths);
    let a2 = spec_ser_list::<Collection>(m.collections);
    let a3 = spec_ser_i64(m.last_updated);
    let a4 = spec_ser_str(m.cache_version);
    let s = spec_ser_doc(m);
    let suf4 = Seq::<u8>::empty();
    let suf3 = a4 + suf4;
    let suf2 = a3 + suf3;
    let suf1 = a2 + suf2;
    let suf0 = a1 + suf1;
    let pre0 = seq![current_tag()];
    let pre1 = pre0 + a0;
    let pre2 = pre1 + a1;
    let pre3 = pre2 + a2;
    let pre4 = pre3 + a3;
    assert(s == ((((pre0 + a0) + a1) + a2) + a3) + a4);
    assert(s =~= pre0 + a0 + suf0) by {
        assert(a4 + suf4 =~= a4);
    }
    assert(s[0] == current_tag());
    lemma_rt_list::<GitRepository>(m.repositories, pre0, suf0);
    lemma_seq_assoc(pre0 + a0, a1, suf1);
    assert(s == pre1 + a1 + suf1);
    lemma_rt_list::<ScanPath>(m.scan_paths, pre1, suf1);
    lemma_seq_assoc(pre1 + a1, a2, suf2);
    assert(s == pre2 + a2 + suf2);
    lemma_rt_list::<Collection>(m.collections, pre2, suf2);
    lemma_seq_assoc(pre2 + a2, a3, suf3);
    assert(s == pre3 + a3 + suf3);
    lemma_rt_i64(m.last_updated, pre3, suf3);
    lemma_seq_assoc(pre3 + a3, a4, suf4);
    assert(s == pre4 + a4 + suf4);
    lemma_rt_str(m.cache_version, pre4, suf4);
    assert(pre4.len() + a4.len() == s.len()) by {
        assert(s =~= pre4 + a4);
    }
}

/// Parsing a serialized prior-generation document restores it.
#[verifier::rlimit(80)]
#[verifier::spinoff_prover]
pub proof fn lemma_old_document_round_trip(m: OldRepositoryCacheModel)
    requires
        bounded_old_doc(m),
    ensures
        sp_doc_v1(spec_ser_old_doc(m)) == Some(m),
        sp_doc_v2(spec_ser_old_doc(m)) is None,
{
    let a0 = spec_ser_list::<OldGitRepository>(m.repositories);
    let a1 = spec_ser_list::<ScanPath>(m.scan_paths);
    let a2 = spec_ser_i64(m.last_updated);
    let a3 = spec_ser_str(m.cache_version);
    let s = spec_ser_old_doc(m);
    let suf3 = Seq::<u8>::empty();
    let suf2 = a3 + suf3;
    let suf1 = a2 + suf2;
    let suf0 = a1 + suf1;
    let pre0 = seq![prior_tag()];
    let pre1 = pre0 + a0;
    let pre2 = pre1 + a1;
    let pre3 = pre2 + a2;
    assert(s == (((pre0 + a0) + a1) + a2) + a3);
    assert(s =~= pre0 + a0 + suf0) by {
        assert(a3 + suf3 =~= a3);
    }
    assert(s[0] == prior_tag());
    lemma_rt_list::<OldGitRepository>(m.repositories, pre0, suf0);
    lemma_seq_assoc(pre0 + a0, a1, suf1);
    assert(s == pre1 + a1 + suf1);
    lemma_rt_list::<ScanPath>(m.scan_paths, pre1, suf1);
    lemma_seq_assoc(pre1 + a1, a2, suf2);
    assert(s == pre2 + a2 + suf2);
    lemma_rt_i64(m.last_updated, pre2, suf2);
    lemma_seq_assoc(pre2 + a2, a3, suf3);
    assert(s == pre3 + a3 + suf3);
    lemma_rt_str(m.cache_version, pre3, suf3);
    assert(pre3.len() + a3.len() == s.len()) by {
        assert(s =~= pre3 + a3);
    }
}

/// What migration makes of an old record: everything it carried is kept, the
/// pin state defaults to unpinned with no timestamp, and no dependency
/// summary is assumed.
pub open spec fn migrate_record_model(o: OldGitRepositoryModel) -> GitRepositoryModel {
    GitRepositoryModel {
        name: o.name,
        path: o.path,
        size_mb: o.size_mb,
        file_types: o.file_types,
        last_commit_date: o.last_commit_date,
        current_branch: o.current_branch,
        branches: o.branches,
        remote_url: o.remote_url,
        commit_count: o.commit_count,
        last_analyzed: o.last_analyzed,
        is_valid: o.is_valid,
        is_pinned: false,
        pinned_at: None,
        node_modules_info: None,
    }
}

/// What migration makes of an old document: records upgraded field by field,
/// collections defaulting to empty, and the version string bumped to the
/// current one. The write time is carried over.
pub open spec fn migrate_doc_model(o: OldRepositoryCacheModel) -> RepositoryCacheModel {
    RepositoryCacheModel {
        repositories: o.repositories.map_values(
            |r: OldGitRepositoryModel| migrate_record_model(r),
        ),
        scan_paths: o.scan_paths,
        collections: Seq::empty(),
        last_updated: o.last_updated,
        cache_version: RepositoryCache::spec_current_version(),
    }
}

/// Upgrade one old record.
fn migrate_record(o: OldGitRepository) -> (r: GitRepository)
    ensures
        r@ == migrate_record_model(o@),
{
    GitRepository {
        name: o.name,
        path: o.path,
        size_mb: o.size_mb,
        file_types: o.file_types,
        last_commit_date: o.last_commit_date,
        current_branch: o.current_branch,
        branches: o.branches,
        remote_url: o.remote_url,
        commit_count: o.commit_count,
        last_analyzed: o.last_analyzed,
        is_valid: o.is_valid,
        is_pinned: false,
        pinned_at: None,
        node_modules_info: None,
    }
}

/// The fixed default swatch that load-time healing gives a collection whose
/// color field is empty.
pub open spec fn spec_default_color() -> Seq<char> {
    "#e5e7eb"@
}

/// The default swatch.
pub fn default_color() -> (r: String)
    ensures
        r@ == spec_default_color(),
{
    let c = "#e5e7eb";
    c.to_owned()
}

/// Whether any collection of the document carries an empty color.
pub open spec fn needs_heal(m: RepositoryCacheModel) -> bool {
    exists|i: int| 0 <= i < m.collections.len() && m.collections[i].color.len() == 0
}

/// A collection with its color defaulted if empty.
pub open spec fn heal_collection(c: CollectionModel) -> CollectionModel {
    if c.color.len() == 0 {
        CollectionModel { color: spec_default_color(), ..c }
    } else {
        c
    }
}

/// The self-healing pass over a loaded document: when any collection carries
/// an empty color, every such color is defaulted and the write time bumped to
/// `now`; the flag says whether anything changed and must be re-saved.
pub open spec fn heal_doc(m: RepositoryCacheModel, now: i64) -> (RepositoryCacheModel, bool) {
    if needs_heal(m) {
        (
            RepositoryCacheModel {
                collections: m.collections.map_values(|c: CollectionModel| heal_collection(c)),
                last_updated: now,
                ..m
            },
            true,
        )
    } else {
        (m, false)
    }
}

/// What loading bytes yields, before well-formedness is enforced: a document
/// parsed at the current generation and healed, or one parsed at the prior
/// generation and migrated (which always needs a re-save), or nothing.
pub open spec fn spec_load(s: Seq<u8>, now: i64) -> Option<(RepositoryCacheModel, bool)> {
    match sp_doc_v2(s) {
        Some(m) => Some(heal_doc(m, now)),
        None => match sp_doc_v1(s) {
            Some(o) => Some((migrate_doc_model(o), true)),
            None => None,
        },
    }
}

/// Serialize the document at the current generation.
#[verifier::rlimit(80)]
pub fn save_document(doc: &RepositoryCache) -> (r: Vec<u8>)
    ensures
        r@ == spec_ser_doc(doc@),
        bounded_doc(doc@),
{
    let ghost m = doc@;
    let mut out: Vec<u8> = Vec::new();
    proof {
        assert(m.repositories =~= doc.repositories.deep_view()) by {
            assert forall|j: int|
                0 <= j < m.repositories.len() implies m.repositories[j]
                == doc.repositories.deep_view()[j] by {
                assert(doc.repositories.deep_view()[j] == doc.repositories@[j].deep_view());
            }
        }
        assert(m.scan_paths =~= doc.scan_paths.deep_view()) by {
            assert forall|j: int|
                0 <= j < m.scan_paths.len() implies m.scan_paths[j]
                == doc.scan_paths.deep_view()[j] by {
                assert(doc.scan_paths.deep_view()[j] == doc.scan_paths@[j].deep_view());
            }
        }
        assert(m.collections =~= doc.collections.deep_view()) by {
            assert forall|j: int|
                0 <= j < m.collections.len() implies m.collections[j]
                == doc.collections.deep_view()[j] by {
                assert(doc.collections.deep_view()[j] == doc.collections@[j].deep_view());
            }
        }
    }
    let ghost a0 = spec_ser_list::<GitRepository>(m.repositories);
    let ghost a1 = spec_ser_list::<ScanPath>(m.scan_paths);
    let ghost a2 = spec_ser_list::<Collection>(m.collections);
    let ghost a3 = spec_ser_i64(m.last_updated);
    let ghost a4 = spec_ser_str(m.cache_version);
    out.push(2u8);
    proof {
        assert(out@ =~= seq![current_tag()]);
    }
    put_list::<GitRepository>(&mut out, &doc.repositories);
    proof {
        assert(out@ == seq![current_tag()] + a0);
    }
    put_list::<ScanPath>(&mut out, &doc.scan_paths);
    proof {
        assert(out@ == (seq![current_tag()] + a0) + a1);
    }
    put_list::<Collection>(&mut out, &doc.collections);
    proof {
        assert(out@ == ((seq![current_tag()] + a0) + a1) + a2);
    }
    put_i64(&mut out, doc.last_updated);
    proof {
        assert(out@ == (((seq![current_tag()] + a0) + a1) + a2) + a3);
    }
    put_str(&mut out, doc.cache_version.as_str());
    proof {
        assert(out@ == ((((seq![current_tag()] + a0) + a1) + a2) + a3) + a4);
        assert(spec_ser_doc(m) == ((((seq![current_tag()] + a0) + a1) + a2) + a3) + a4);
    }
    out
}

/// Serialize a document at the prior generation, as an old build of the
/// store would have written it.
#[verifier::rlimit(80)]
pub fn save_old_document(doc: &OldRepositoryCache) -> (r: Vec<u8>)
    ensures
        r@ == spec_ser_old_doc(doc@),
        bounded_old_doc(doc@),
{
    let ghost m = doc@;
    let mut out: Vec<u8> = Vec::new();
    let ghost a0 = spec_ser_list::<OldGitRepository>(m.repositories);
    let ghost a1 = spec_ser_list::<ScanPath>(m.scan_paths);
    let ghost a2 = spec_ser_i64(m.last_updated);
    let ghost a3 = spec_ser_str(m.cache_version);
    out.push(1u8);
    proof {
        assert(out@ =~= seq![prior_tag()]);
    }
    put_list::<OldGitRepository>(&mut out, &doc.repositories);
    proof {
        assert(out@ == seq![prior_tag()] + a0);
    }
    put_list::<ScanPath>(&mut out, &doc.scan_paths);
    proof {
        assert(out@ == (seq![prior_tag()] + a0) + a1);
    }
    put_i64(&mut out, doc.last_updated);
    proof {
        assert(out@ == ((seq![prior_tag()] + a0) + a1) + a2);
    }
    put_str(&mut out, doc.cache_version.as_str());
    proof {
        assert(out@ == (((seq![prior_tag()] + a0) + a1) + a2) + a3);
        assert(spec_ser_old_doc(m) == (((seq![prior_tag()] + a0) + a1) + a2) + a3);
    }
    out
}

/// Whether one record is internally consistent.
#[verifier::loop_isolation(false)]
fn record_well_formed(r: &GitRepository) -> (ok: bool)
    ensures
        ok == r.wf(),
{
    if !r.is_pinned && r.pinned_at.is_some() {
        return false;
    }
    let mut i: usize = 0;
    while i < r.file_types.len()
        invariant
            i <= r.file_types@.len(),
            forall|a: int, b: int|
                0 <= a < b < i ==> r.file_types@[a].0@ != r.file_types@[b].0@,
            !r.is_pinned ==> r.pinned_at is None,
        decreases r.file_types@.len() - i,
    {
        let mut j: usize = 0;
        while j < i
            invariant
                j <= i,
                forall|b: int| 0 <= b < j ==> r.file_types@[b].0@ != r.file_types@[i as int].0@,
            decreases i - j,
        {
            if r.file_types[j].0.eq(&r.file_types[i].0) {
                return false;
            }
            j += 1;
        }
        proof {
            assert forall|a: int, b: int|
                0 <= a < b < i + 1 implies r.file_types@[a].0@ != r.file_types@[b].0@ by {}
        }
        i += 1;
    }
    true
}

/// Whether the whole document is well-formed: keys pairwise distinct in each
/// of its three maps, and every record internally consistent.
#[verifier::loop_isolation(false)]
pub fn is_well_formed(doc: &RepositoryCache) -> (ok: bool)
    ensures
        ok == doc.wf(),
{
    let mut i: usize = 0;
    while i < doc.repositories.len()
        invariant
            i <= doc.repositories@.len(),
            forall|a: int, b: int|
                0 <= a < b < i ==> doc.repositories@[a].path@ != doc.repositories@[b].path@,
            forall|a: int| 0 <= a < i ==> (#[trigger] doc.repositories@[a]).wf(),
        decreases doc.repositories@.len() - i,
    {
        if !record_well_formed(&doc.repositories[i]) {
            return false;
        }
        let mut j: usize = 0;
        while j < i
            invariant
                j <= i,
                forall|b: int| 0 <= b < j ==> doc.repositories@[b].path@ != doc.repositories@[
                    i as int].path@,
            decreases i - j,
        {
            if doc.repositories[j].path.eq(&doc.repositories[i].path) {
                return false;
            }
            j += 1;
        }
        i += 1;
    }
    let mut i: usize = 0;
    while i < doc.scan_paths.len()
        invariant
            i <= doc.scan_paths@.len(),
            crate::assoc::unique_keys(doc.repositories@),
            forall|a: int| 0 <= a < doc.repositories@.len() ==> (#[trigger] doc.repositories@[a]).wf(),
            forall|a: int, b: int|
                0 <= a < b < i ==> doc.scan_paths@[a].path@ != doc.scan_paths@[b].path@,
        decreases doc.scan_paths@.len() - i,
    {
        let mut j: usize = 0;
        while j < i
            invariant
                j <= i,
                forall|b: int| 0 <= b < j ==> doc.scan_paths@[b].path@ != doc.scan_paths@[
                    i as int].path@,
            decreases i - j,
        {
            if doc.scan_paths[j].path.eq(&doc.scan_paths[i].path) {
                return false;
            }
            j += 1;
        }
        i += 1;
    }
    let mut i: usize = 0;
    while i < doc.collections.len()
        invariant
            i <= doc.collections@.len(),
            crate::assoc::unique_keys(doc.repositories@),
            crate::assoc::unique_keys(doc.scan_paths@),
            forall|a: int| 0 <= a < doc.repositories@.len() ==> (#[trigger] doc.repositories@[a]).wf(),
            forall|a: int, b: int|
                0 <= a < b < i ==> doc.collections@[a].id@ != doc.collections@[b].id@,
        decreases doc.collections@.len() - i,
    {
        let mut j: usize = 0;
        while j < i
            invariant
                j <= i,
                forall|b: int| 0 <= b < j ==> doc.collections@[b].id@ != doc.collections@[
                    i as int].id@,
            decreases i - j,
        {
            if doc.collections[j].id.eq(&doc.collections[i].id) {
                return false;
            }
            j += 1;
        }
        i += 1;
    }
    true
}

/// Load a document from bytes: parse it at the current schema generation,
/// falling back to the prior generation (whose missing fields default and
/// which must then be re-saved), then run the color self-heal. The flag says
/// whether the caller owes an immediate re-save, so that migration and
/// healing execute at most once per document. Bytes that no known generation
/// parses, and parses whose keys collide, fail with `SchemaError`.
#[verifier::loop_isolation(false)]
#[verifier::rlimit(80)]
pub fn load_document(bytes: &Vec<u8>, now: i64) -> (r: Result<(RepositoryCache, bool), StoreError>)
    ensures
        match spec_load(bytes@, now) {
            None => r == Err::<(RepositoryCache, bool), StoreError>(StoreError::SchemaError),
            Some((m, ns)) => {
                if exists|d: RepositoryCache| d@ == m && d.wf() {
                    r matches Ok(p) && p.0@ == m && p.1 == ns && p.0.wf()
                } else {
                    r == Err::<(RepositoryCache, bool), StoreError>(StoreError::SchemaError)
                }
            },
        },
{
    let parsed: Option<(RepositoryCache, bool)> = if bytes.len() >= 1 && bytes[0] == 2 {
        match take_doc_v2(bytes) {
            Some(doc) => {
                let (healed, changed) = heal_colors(doc, now);
                Some((healed, changed))
            },
            None => None,
        }
    } else if bytes.len() >= 1 && bytes[0] == 1 {
        match take_doc_v1(bytes) {
            Some(doc) => Some((doc, true)),
            None => None,
        }
    } else {
        None
    };
    proof {
        if bytes@.len() < 1 || (bytes@[0] != current_tag() && bytes@[0] != prior_tag()) {
            assert(sp_doc_v2(bytes@) is None);
            assert(sp_doc_v1(bytes@) is None);
        }
        if bytes@.len() >= 1 && bytes@[0] == prior_tag() {
            assert(sp_doc_v2(bytes@) is None);
        }
        if bytes@.len() >= 1 && bytes@[0] == current_tag() {
            assert(sp_doc_v1(bytes@) is None);
        }
    }
    match parsed {
        None => Err(StoreError::SchemaError),
        Some((doc, needs_save)) => {
            if is_well_formed(&doc) {
                proof {
                    let m = spec_load(bytes@, now)->Some_0.0;
                    assert(doc@ == m && doc.wf());
                }
                Ok((doc, needs_save))
            } else {
                proof {
                    let m = spec_load(bytes@, now)->Some_0.0;
                    assert forall|d: RepositoryCache| d@ == m implies !d.wf() by {
                        if d.wf() {
                            crate::repo_types::lemma_wf_same_model(d, doc);
                        }
                    }
                }
                Err(StoreError::SchemaError)
            }
        },
    }
}

/// Parse a whole current-generation document.
fn take_doc_v2(bytes: &Vec<u8>) -> (r: Option<RepositoryCache>)
    ensures
        match r {
            Some(doc) => sp_doc_v2(bytes@) == Some(doc@),
            None => bytes@.len() >= 1 && bytes@[0] == current_tag() ==> sp_doc_v2(bytes@) is None,
        },
{
    if bytes.len() < 1 || bytes[0] != 2 {
        return None;
    }
    let (repositories, p1) = match take_list::<GitRepository>(bytes, 1) {
        Some(x) => x,
        None => {
            return None;
        },
    };
    let (scan_paths, p2) = match take_list::<ScanPath>(bytes, p1) {
        Some(x) => x,
        None => {
            return None;
        },
    };
    let (collections, p3) = match take_list::<Collection>(bytes, p2) {
        Some(x) => x,
        None => {
            return None;
        },
    };
    let (last_updated, p4) = match take_i64(bytes, p3) {
        Some(x) => x,
        None => {
            return None;
        },
    };
    let (cache_version, p5) = match take_str(bytes, p4) {
        Some(x) => x,
        None => {
            return None;
        },
    };
    if p5 != bytes.len() {
        return None;
    }
    let doc = RepositoryCache { repositories, scan_paths, collections, last_updated, cache_version };
    proof {
        assert(doc@.repositories =~= doc.repositories.deep_view()) by {
            assert forall|j: int|
                0 <= j < doc@.repositories.len() implies doc@.repositories[j]
                == doc.repositories.deep_view()[j] by {
                assert(doc.repositories.deep_view()[j] == doc.repositories@[j].deep_view());
            }
        }
        assert(doc@.scan_paths =~= doc.scan_paths.deep_view()) by {
            assert forall|j: int|
                0 <= j < doc@.scan_paths.len() implies doc@.scan_paths[j]
                == doc.scan_paths.deep_view()[j] by {
                assert(doc.scan_paths.deep_view()[j] == doc.scan_paths@[j].deep_view());
            }
        }
        assert(doc@.collections =~= doc.collections.deep_view()) by {
            assert forall|j: int|
                0 <= j < doc@.collections.len() implies doc@.collections[j]
                == doc.collections.deep_view()[j] by {
                assert(doc.collections.deep_view()[j] == doc.collections@[j].deep_view());
            }
        }
    }
    Some(doc)
}

/// Parse a whole prior-generation document and upgrade it on the spot.
#[verifier::loop_isolation(false)]
fn take_doc_v1(bytes: &Vec<u8>) -> (r: Option<RepositoryCache>)
    ensures
        match r {
            Some(doc) => sp_doc_v1(bytes@) matches Some(o) && doc@ == migrate_doc_model(o),
            None => bytes@.len() >= 1 && bytes@[0] == prior_tag() ==> sp_doc_v1(bytes@) is None,
        },
{
    if bytes.len() < 1 || bytes[0] != 1 {
        return None;
    }
    let (old_repositories, p1) = match take_list::<OldGitRepository>(bytes, 1) {
        Some(x) => x,
        None => {
            return None;
        },
    };
    let (scan_paths, p2) = match take_list::<ScanPath>(bytes, p1) {
        Some(x) => x,
        None => {
            return None;
        },
    };
    let (last_updated, p3) = match take_i64(bytes, p2) {
        Some(x) => x,
        None => {
            return None;
        },
    };
    let (cache_version, p4) = match take_str(bytes, p3) {
        Some(x) => x,
        None => {
            return None;
        },
    };
    if p4 != bytes.len() {
        return None;
    }
    let ghost olds = old_repositories.deep_view();
    let mut repositories: Vec<GitRepository> = Vec::new();
    let mut upgraded = old_repositories;
    let ghost total = olds.len();
    let n0 = upgraded.len();
    proof {
        assert(olds.len() == upgraded@.len());
        assert(total <= usize::MAX);
    }
    let mut i: usize = 0;
    while upgraded.len() > 0
        invariant
            total <= usize::MAX,
            i <= total,
            upgraded@.len() + i == total,
            forall|j: int|
                0 <= j < upgraded@.len() ==> (#[trigger] upgraded@[j]).deep_view() == olds[i + j],
            repositories.deep_view().len() == i,
            forall|j: int|
                0 <= j < i ==> (#[trigger] repositories.deep_view()[j]) == migrate_record_model(
                    olds[j],
                ),
        decreases upgraded@.len(),
    {
        let ghost before = upgraded@;
        let o = upgraded.remove(0);
        proof {
            assert(o.deep_view() == olds[i as int]);
            assert forall|j: int|
                0 <= j < upgraded@.len() implies (#[trigger] upgraded@[j]).deep_view() == olds[
                i + 1 + j] by {
                assert(upgraded@[j] == before[j + 1]);
            }
        }
        let ghost dvprev = repositories.deep_view();
        repositories.push(migrate_record(o));
        proof {
            assert forall|j: int|
                0 <= j < i + 1 implies (#[trigger] repositories.deep_view()[j])
                == migrate_record_model(olds[j]) by {
                assert(repositories.deep_view()[j] == repositories@[j]@);
                if j < i {
                    assert(dvprev[j] == migrate_record_model(olds[j]));
                    assert(dvprev[j] == repositories@[j]@);
                }
            }
        }
        i += 1;
    }
    let doc = RepositoryCache {
        repositories,
        scan_paths,
        collections: Vec::new(),
        last_updated,
        cache_version: crate::repo_types::current_version(),
    };
    proof {
        let o = sp_doc_v1(bytes@)->Some_0;
        assert(olds =~= o.repositories);
        assert(doc@.repositories =~= o.repositories.map_values(
            |r: OldGitRepositoryModel| migrate_record_model(r),
        )) by {
            assert forall|j: int|
                0 <= j < doc@.repositories.len() implies doc@.repositories[j]
                == migrate_record_model(o.repositories[j]) by {
                assert(doc@.repositories[j] == doc.repositories@[j]@);
                assert(doc.repositories.deep_view()[j] == doc.repositories@[j]@);
            }
        }
        assert(doc@.scan_paths =~= o.scan_paths) by {
            assert forall|j: int|
                0 <= j < doc@.scan_paths.len() implies doc@.scan_paths[j]
                == doc.scan_paths.deep_view()[j] by {
                assert(doc.scan_paths.deep_view()[j] == doc.scan_paths@[j].deep_view());
            }
        }
        assert(doc@.collections =~= Seq::<CollectionModel>::empty());
    }
    Some(doc)
}

/// Run the color self-heal over a loaded document: every collection with an
/// empty color gets the default swatch; if any did, the write time becomes
/// `now` and the flag reports that a re-save is owed.
#[verifier::loop_isolation(false)]
fn heal_colors(doc: RepositoryCache, now: i64) -> (r: (RepositoryCache, bool))
    ensures
        (r.0@, r.1) == heal_doc(doc@, now),
{
    let ghost m = doc@;
    let mut doc = doc;
    let mut changed = false;
    let mut i: usize = 0;
    while i < doc.collections.len()
        invariant
            i <= doc.collections@.len(),
            doc@.repositories == m.repositories,
            doc@.scan_paths == m.scan_paths,
            doc@.last_updated == m.last_updated,
            doc@.cache_version == m.cache_version,
            doc@.collections.len() == m.collections.len(),
            forall|j: int|
                i <= j < m.collections.len() ==> doc@.collections[j] == m.collections[j],
            forall|j: int|
                0 <= j < i ==> doc@.collections[j] == heal_collection(#[trigger] m.collections[j]),
            changed == exists|j: int|
                0 <= j < i && (#[trigger] m.collections[j]).color.len() == 0,
        decreases doc.collections@.len() - i,
    {
        let ghost pre = doc@.collections;
        if doc.collections[i].color.as_str().is_empty() {
            let mut c = doc.collections.remove(i);
            c.color = default_color();
            doc.collections.insert(i, c);
            changed = true;
            proof {
                assert(doc@.collections =~= pre.update(i as int, doc@.collections[i as int]));
                assert(doc@.collections[i as int] == heal_collection(m.collections[i as int]));
                assert(exists|j: int|
                    0 <= j < i + 1 && (#[trigger] m.collections[j]).color.len() == 0) by {
                    assert(m.collections[i as int].color.len() == 0);
                }
            }
        } else {
            proof {
                assert(doc@.collections[i as int] == heal_collection(m.collections[i as int]));
                if exists|j: int| 0 <= j < i + 1 && (#[trigger] m.collections[j]).color.len()
                    == 0 {
                    let j = choose|j: int|
                        0 <= j < i + 1 && (#[trigger] m.collections[j]).color.len() == 0;
                    assert(j < i);
                }
            }
        }
        i += 1;
    }
    if changed {
        doc.last_updated = now;
        proof {
            assert(needs_heal(m));
            assert(doc@.collections =~= m.collections.map_values(
                |c: CollectionModel| heal_collection(c),
            ));
        }
        (doc, true)
    } else {
        proof {
            assert(!needs_heal(m));
            assert(doc@.collections =~= m.collections);
            assert(doc@ == m);
        }
        (doc, false)
    }
}

/// Migration executes at most once per document: bytes written by the prior
/// generation fail the current parse and load as the upgraded document with
/// its defaults filled and a re-save owed; once that upgraded document is
/// re-saved, loading it again changes nothing and owes no further save.
pub proof fn lemma_migration(o: OldRepositoryCacheModel, now: i64, later: i64)
    requires
        bounded_old_doc(o),
    ensures
        spec_load(spec_ser_old_doc(o), now) == Some((migrate_doc_model(o), true)),
        migrate_doc_model(o).cache_version == RepositoryCache::spec_current_version(),
        migrate_doc_model(o).collections == Seq::<CollectionModel>::empty(),
        migrate_doc_model(o).last_updated == o.last_updated,
        forall|i: int|
            0 <= i < o.repositories.len() ==> (#[trigger] migrate_doc_model(o).repositories[i])
                == migrate_record_model(o.repositories[i]),
        bounded_doc(migrate_doc_model(o)) ==> spec_load(
            spec_ser_doc(migrate_doc_model(o)),
            later,
        ) == Some((migrate_doc_model(o), false)),
{
    lemma_old_document_round_trip(o);
    let m = migrate_doc_model(o);
    if bounded_doc(m) {
        lemma_document_round_trip(m);
        assert(!needs_heal(m));
    }
}

} // verus!
