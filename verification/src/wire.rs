//! Wire codec of the daemon protocol: little-endian u64 framing,
//! length-prefixed strings padded to a multiple of 8 bytes, and string
//! lists. A string on the wire is an opaque byte sequence.

use vstd::bytes::{
    lemma_auto_spec_u64_to_from_le_bytes, spec_u64_from_le_bytes, spec_u64_to_le_bytes,
    u64_from_le_bytes, u64_to_le_bytes,
};
use vstd::prelude::*;

use crate::CacheError;

verus! {

/// Number of zero bytes that pad a payload of `n` bytes up to a
/// multiple of 8.
pub open spec fn spec_pad(n: int) -> int {
    (8 - n % 8) % 8
}

/// The zero padding itself.
pub open spec fn spec_padding(n: int) -> Seq<u8> {
    Seq::new(spec_pad(n) as nat, |i: int| 0u8)
}

/// A framed string: u64 length, payload, zero padding to 8 bytes.
pub open spec fn spec_framed(s: Seq<u8>) -> Seq<u8> {
    spec_u64_to_le_bytes(s.len() as u64) + s + spec_padding(s.len() as int)
}

/// Total number of bytes a string of length `n` occupies on the wire.
pub open spec fn spec_framed_len(n: int) -> int {
    8 + n + spec_pad(n)
}

/// A framed string list: u64 count, then each string framed in order.
pub open spec fn spec_framed_list(l: Seq<Seq<u8>>) -> Seq<u8> {
    spec_u64_to_le_bytes(l.len() as u64) + spec_framed_concat(l)
}

/// Every framed string occupies a multiple of 8 bytes on the wire,
/// and exactly `8 + len + pad` of them.
pub proof fn lemma_framed_len(s: Seq<u8>)
    ensures
        spec_framed(s).len() == spec_framed_len(s.len() as int),
        spec_framed(s).len() % 8 == 0,
{
    lemma_auto_spec_u64_to_from_le_bytes();
}

/// Padding that follows a string payload of the given length.
pub fn alignment(size: u64) -> (r: usize)
    ensures
        r == spec_pad(size as int),
{
    let align = 8 - (size % 8);
    if align == 8 {
        0
    } else {
        align as usize
    }
}

/// Appends the framing of `s` to `out`.
pub fn encode_string_into(out: &mut Vec<u8>, s: &[u8])
    ensures
        final(out)@ == old(out)@ + spec_framed(s@),
{
    proof {
        lemma_auto_spec_u64_to_from_le_bytes();
    }
    let len_bytes = u64_to_le_bytes(s.len() as u64);
    out.extend_from_slice(len_bytes.as_slice());
    out.extend_from_slice(s);
    let pad = alignment(s.len() as u64);
    let mut i: usize = 0;
    while i < pad
        invariant
            i <= pad,
            pad == spec_pad(s@.len() as int),
            out@ == old(out)@ + spec_u64_to_le_bytes(s@.len() as u64) + s@ + Seq::new(
                i as nat,
                |j: int| 0u8,
            ),
        decreases pad - i,
    {
        out.push(0u8);
        i = i + 1;
        proof {
            assert(Seq::new(i as nat, |j: int| 0u8) =~= Seq::new((i - 1) as nat, |j: int| 0u8)
                + seq![0u8]);
        }
    }
    proof {
        assert(out@ =~= old(out)@ + spec_framed(s@));
    }
}

/// The framing of one string, as a fresh buffer.
pub fn encode_string(s: &[u8]) -> (r: Vec<u8>)
    ensures
        r@ == spec_framed(s@),
{
    let mut out: Vec<u8> = Vec::new();
    encode_string_into(&mut out, s);
    out
}

/// Appends the little-endian framing of one u64 to `out`.
pub fn encode_u64_into(out: &mut Vec<u8>, x: u64)
    ensures
        final(out)@ == old(out)@ + spec_u64_to_le_bytes(x),
{
    let bytes = u64_to_le_bytes(x);
    out.extend_from_slice(bytes.as_slice());
}

/// Appends the framing of a string list to `out`.
pub fn encode_string_list_into(out: &mut Vec<u8>, l: &Vec<Vec<u8>>)
    ensures
        final(out)@ == old(out)@ + spec_framed_list(l@.map_values(|s: Vec<u8>| s@)),
{
    proof {
        lemma_auto_spec_u64_to_from_le_bytes();
    }
    encode_u64_into(out, l.len() as u64);
    let ghost views = l@.map_values(|s: Vec<u8>| s@);
    let mut i: usize = 0;
    proof {
        assert(views.subrange(0, 0) =~= Seq::<Seq<u8>>::empty());
    }
    while i < l.len()
        invariant
            i <= l.len(),
            views == l@.map_values(|s: Vec<u8>| s@),
            views.len() == l@.len(),
            out@ == old(out)@ + spec_u64_to_le_bytes(l@.len() as u64) + spec_framed_concat(
                views.subrange(0, i as int),
            ),
        decreases l.len() - i,
    {
        encode_string_into(out, l[i].as_slice());
        proof {
            assert(views.subrange(0, i + 1).drop_last() =~= views.subrange(0, i as int));
            assert(views.subrange(0, i + 1).last() == views[i as int]);
        }
        i = i + 1;
    }
    proof {
        assert(views.subrange(0, views.len() as int) =~= views);
        assert(out@ =~= old(out)@ + spec_framed_list(views));
    }
}

/// Whether a byte string begins with the framing of `s`.
pub open spec fn spec_starts_with_framed(b: Seq<u8>, s: Seq<u8>) -> bool {
    b.len() >= spec_framed(s).len() && b.subrange(0, spec_framed(s).len() as int) == spec_framed(
        s,
    )
}

pub(crate) proof fn lemma_no_frame_here(b: Seq<u8>, s: Seq<u8>, l: int)
    requires
        8 <= b.len() <= usize::MAX,
        l == spec_u64_from_le_bytes(b.subrange(0, 8)) as int,
        spec_starts_with_framed(b, s),
    ensures
        s.len() == l,
        8 + l + spec_pad(l) <= b.len(),
        forall|j: int| 0 <= j < spec_pad(l) ==> (#[trigger] b[8 + l + j]) == 0,
{
    lemma_auto_spec_u64_to_from_le_bytes();
    lemma_framed_len(s);
    let f = spec_framed(s);
    assert(b.subrange(0, f.len() as int).subrange(0, 8) =~= b.subrange(0, 8));
    assert(f.subrange(0, 8) =~= spec_u64_to_le_bytes(s.len() as u64));
    assert(spec_u64_from_le_bytes(spec_u64_to_le_bytes(s.len() as u64)) == s.len() as u64);
    assert(s.len() as u64 == spec_u64_from_le_bytes(b.subrange(0, 8)));
    assert(s.len() < 0x1_0000_0000_0000_0000) by {
        assert(f.len() <= b.len() <= usize::MAX);
        assert(f.len() == 8 + s.len() + spec_pad(s.len() as int));
    }
    assert(s.len() == l);
    assert forall|j: int| 0 <= j < spec_pad(l) implies (#[trigger] b[8 + l + j]) == 0 by {
        assert(b.subrange(0, f.len() as int)[8 + l + j] == f[8 + l + j]);
        assert(f[8 + l + j] == spec_padding(s.len() as int)[j]);
    }
}

/// The concatenation of the framings of each string, without the count.
pub open spec fn spec_framed_concat(l: Seq<Seq<u8>>) -> Seq<u8>
    decreases l.len(),
{
    if l.len() == 0 {
        Seq::empty()
    } else {
        spec_framed_concat(l.drop_last()) + spec_framed(l.last())
    }
}

/// Reads a u64 at `pos`. Fails when fewer than 8 bytes remain: a short
/// frame is fatal for the session.
pub fn parse_u64(buf: &[u8], pos: usize) -> (r: Result<(u64, usize), CacheError>)
    ensures
        match r {
            Ok((x, end)) => {
                &&& pos + 8 <= buf@.len()
                &&& end == pos + 8
                &&& x == spec_u64_from_le_bytes(buf@.subrange(pos as int, pos + 8))
            },
            Err(e) => {
                &&& e == CacheError::DaemonProtocol
                &&& pos + 8 > buf@.len()
            },
        },
{
    if buf.len() < 8 || pos > buf.len() - 8 {
        return Err(CacheError::DaemonProtocol);
    }
    let chunk = vstd::slice::slice_subrange(buf, pos, pos + 8);
    let x = u64_from_le_bytes(chunk);
    Ok((x, pos + 8))
}

/// Reads one framed string at `pos`: its length, payload, and padding.
/// On success the consumed bytes are exactly the framing of the result;
/// it fails exactly when the length field is cut short, the frame
/// overruns the buffer, or a padding byte is not zero — never on a
/// buffer that starts with a well-formed frame.
pub fn parse_string(buf: &[u8], pos: usize) -> (r: Result<(Vec<u8>, usize), CacheError>)
    ensures
        match r {
            Ok((v, end)) => {
                &&& pos <= end <= buf@.len()
                &&& buf@.subrange(pos as int, end as int) == spec_framed(v@)
                &&& end == pos + spec_framed_len(v@.len() as int)
            },
            Err(e) => {
                &&& e == CacheError::DaemonProtocol
                &&& (pos + 8 > buf@.len() || {
                    let l = spec_u64_from_le_bytes(buf@.subrange(pos as int, pos + 8)) as int;
                    pos + 8 + l + spec_pad(l) > buf@.len() || (exists|j: int|
                        0 <= j < spec_pad(l) && (#[trigger] buf@[pos + 8 + l + j]) != 0)
                })
                &&& pos <= buf@.len() ==> forall|s: Seq<u8>|
                    !spec_starts_with_framed(buf@.skip(pos as int), s)
            },
        },
{
    let r0 = parse_u64(buf, pos);
    let (len, mut p) = match r0 {
        Ok(v) => v,
        Err(e) => {
            proof {
                if pos <= buf@.len() {
                    assert forall|s: Seq<u8>| !spec_starts_with_framed(
                        buf@.skip(pos as int),
                        s,
                    ) by {
                        lemma_framed_len(s);
                        assert(buf@.skip(pos as int).len() < 8);
                        assert(spec_framed(s).len() >= 8);
                    }
                }
            }
            return Err(e);
        },
    };
    let blen = buf.len();
    if len > usize::MAX as u64 {
        proof {
            assert(buf@.len() == blen);
            assert(pos + 8 + (len as int) + spec_pad(len as int) > buf@.len());
            assert(buf@.len() == blen);
            assert forall|s: Seq<u8>| !spec_starts_with_framed(buf@.skip(pos as int), s) by {
                if spec_starts_with_framed(buf@.skip(pos as int), s) {
                    assert(buf@.skip(pos as int).subrange(0, 8) =~= buf@.subrange(
                        pos as int,
                        pos + 8,
                    ));
                    lemma_no_frame_here(buf@.skip(pos as int), s, len as int);
                }
            }
        }
        return Err(CacheError::DaemonProtocol);
    }
    let len = len as usize;
    let pad = alignment(len as u64);
    if buf.len() - p < len || buf.len() - p - len < pad {
        proof {
            assert(buf@.len() == blen);
            assert forall|s: Seq<u8>| !spec_starts_with_framed(buf@.skip(pos as int), s) by {
                if spec_starts_with_framed(buf@.skip(pos as int), s) {
                    assert(buf@.skip(pos as int).subrange(0, 8) =~= buf@.subrange(
                        pos as int,
                        pos + 8,
                    ));
                    lemma_no_frame_here(buf@.skip(pos as int), s, len as int);
                }
            }
        }
        return Err(CacheError::DaemonProtocol);
    }
    let payload_slice = vstd::slice::slice_subrange(buf, p, p + len);
    let payload = vstd::slice::slice_to_vec(payload_slice);
    // The padding must be zeros; a misaligned frame is fatal.
    let mut i: usize = 0;
    while i < pad
        invariant
            i <= pad,
            p == pos + 8,
            p + len + pad <= buf@.len(),
            buf@.len() <= usize::MAX,
            len == spec_u64_from_le_bytes(buf@.subrange(pos as int, pos + 8)),
            pad == spec_pad(len as int),
            forall|j: int| 0 <= j < i ==> (#[trigger] buf@[p + len + j]) == 0u8,
        decreases pad - i,
    {
        if *vstd::slice::slice_index_get(buf, p + len + i) != 0u8 {
            proof {
                assert(buf@[pos + 8 + (len as int) + (i as int)] != 0);
                assert forall|s: Seq<u8>| !spec_starts_with_framed(buf@.skip(pos as int), s) by {
                    if spec_starts_with_framed(buf@.skip(pos as int), s) {
                        assert(buf@.skip(pos as int).len() <= usize::MAX);
                        assert(buf@.skip(pos as int).subrange(0, 8) =~= buf@.subrange(
                            pos as int,
                            pos + 8,
                        ));
                        lemma_no_frame_here(buf@.skip(pos as int), s, len as int);
                        assert(buf@.skip(pos as int)[8 + (len as int) + (i as int)] == buf@[pos + 8
                            + (len as int) + (i as int)]);
                    }
                }
            }
            return Err(CacheError::DaemonProtocol);
        }
        i = i + 1;
    }
    let end = p + len + pad;
    proof {
        lemma_auto_spec_u64_to_from_le_bytes();
        assert(payload@ == buf@.subrange(p as int, p + len));
        assert(payload@.len() == len);
        assert(spec_u64_to_le_bytes(payload@.len() as u64) =~= buf@.subrange(
            pos as int,
            pos + 8,
        )) by {
            assert(spec_u64_from_le_bytes(buf@.subrange(pos as int, pos + 8)) == payload@.len()
                as u64);
            assert(buf@.subrange(pos as int, pos + 8).len() == 8);
        }
        assert forall|j: int| 0 <= j < pad implies (#[trigger] buf@.subrange(
            p + len as int,
            end as int,
        )[j]) == 0u8 by {
            assert(buf@.subrange(p + len as int, end as int)[j] == buf@[p + len + j]);
        }
        assert(spec_padding(payload@.len() as int) =~= buf@.subrange(p + len as int, end as int));
        assert(buf@.subrange(pos as int, end as int) =~= spec_framed(payload@));
    }
    Ok((payload, end))
}

/// Whether a byte string begins with the framing of a string list.
pub open spec fn spec_starts_with_list(b: Seq<u8>, l: Seq<Seq<u8>>) -> bool {
    b.len() >= spec_framed_list(l).len() && b.subrange(0, spec_framed_list(l).len() as int)
        == spec_framed_list(l)
}

/// The framings of the strings from index `i` on, concatenated.
pub open spec fn spec_concat_from(l: Seq<Seq<u8>>, i: int) -> Seq<u8>
    decreases l.len() - i,
{
    if i < 0 || i >= l.len() {
        Seq::empty()
    } else {
        spec_framed(l[i]) + spec_concat_from(l, i + 1)
    }
}

pub(crate) proof fn lemma_concat_from_eq(l: Seq<Seq<u8>>)
    ensures
        spec_framed_concat(l) == spec_concat_from(l, 0),
    decreases l.len(),
{
    if l.len() == 0 {
        assert(spec_framed_concat(l) =~= spec_concat_from(l, 0));
    } else {
        let d = l.drop_last();
        lemma_concat_from_eq(d);
        lemma_concat_from_push(d, l.last(), 0);
        assert(d.push(l.last()) =~= l);
        assert(spec_framed_concat(l) =~= spec_concat_from(l, 0));
    }
}

proof fn lemma_concat_from_push(l: Seq<Seq<u8>>, x: Seq<u8>, i: int)
    requires
        0 <= i <= l.len(),
    ensures
        spec_concat_from(l.push(x), i) == spec_concat_from(l, i) + spec_framed(x),
    decreases l.len() - i,
{
    let l2 = l.push(x);
    if i == l.len() {
        assert(spec_concat_from(l2, i) =~= spec_framed(x) + spec_concat_from(l2, i + 1));
        assert(spec_concat_from(l2, i + 1) =~= Seq::<u8>::empty());
        assert(spec_concat_from(l, i) =~= Seq::<u8>::empty());
        assert(spec_concat_from(l2, i) =~= spec_concat_from(l, i) + spec_framed(x));
    } else {
        lemma_concat_from_push(l, x, i + 1);
        assert(l2[i] == l[i]);
        assert(spec_concat_from(l2, i) =~= spec_concat_from(l, i) + spec_framed(x));
    }
}

/// Each framed string takes at least 8 bytes, so a framed
/// concatenation of `n` strings takes at least `8n`.
pub(crate) proof fn lemma_concat_min_len(l: Seq<Seq<u8>>, i: int)
    requires
        0 <= i <= l.len(),
    ensures
        spec_concat_from(l, i).len() >= 8 * (l.len() - i),
    decreases l.len() - i,
{
    if i < l.len() {
        lemma_concat_min_len(l, i + 1);
        lemma_framed_len(l[i]);
    }
}

/// Two strings whose framings begin the same buffer are the same
/// string.
pub(crate) proof fn lemma_frame_prefix_unique(b: Seq<u8>, s1: Seq<u8>, s2: Seq<u8>)
    requires
        b.len() <= usize::MAX,
        spec_starts_with_framed(b, s1),
        spec_starts_with_framed(b, s2),
    ensures
        s1 == s2,
        spec_framed(s1).len() == spec_framed(s2).len(),
{
    lemma_auto_spec_u64_to_from_le_bytes();
    lemma_framed_len(s1);
    lemma_framed_len(s2);
    let w = spec_u64_from_le_bytes(b.subrange(0, 8)) as int;
    lemma_no_frame_here(b, s1, w);
    lemma_no_frame_here(b, s2, w);
    assert(s1.len() == s2.len());
    assert forall|k: int| 0 <= k < s1.len() implies s1[k] == s2[k] by {
        assert(b.subrange(0, spec_framed(s1).len() as int)[8 + k] == spec_framed(s1)[8 + k]);
        assert(b.subrange(0, spec_framed(s2).len() as int)[8 + k] == spec_framed(s2)[8 + k]);
        assert(spec_framed(s1)[8 + k] == s1[k]);
        assert(spec_framed(s2)[8 + k] == s2[k]);
    }
    assert(s1 =~= s2);
}

/// Reads a framed string list at `pos`. On success the consumed bytes
/// are exactly the framing of the result; it never fails on a buffer
/// that starts with a well-formed list.
#[verifier::rlimit(60)]
pub fn parse_string_list(buf: &[u8], pos: usize) -> (r: Result<(Vec<Vec<u8>>, usize), CacheError>)
    ensures
        match r {
            Ok((v, end)) => {
                &&& pos <= end <= buf@.len()
                &&& buf@.subrange(pos as int, end as int) == spec_framed_list(
                    v@.map_values(|s: Vec<u8>| s@),
                )
            },
            Err(e) => {
                &&& e == CacheError::DaemonProtocol
                &&& pos <= buf@.len() ==> forall|l: Seq<Seq<u8>>|
                    !spec_starts_with_list(buf@.skip(pos as int), l)
            },
        },
{
    let bp8 = match parse_u64(buf, pos) {
        Ok(v) => v,
        Err(e) => {
            proof {
                if pos <= buf@.len() {
                    assert forall|l: Seq<Seq<u8>>| !spec_starts_with_list(
                        buf@.skip(pos as int),
                        l,
                    ) by {
                        lemma_auto_spec_u64_to_from_le_bytes();
                        assert(spec_framed_list(l).len() >= 8);
                        assert(buf@.skip(pos as int).len() < 8);
                    }
                }
            }
            return Err(e);
        },
    };
    let (count, mut p) = bp8;
    let blen = buf.len();
    proof {
        lemma_auto_spec_u64_to_from_le_bytes();
        assert(buf@.skip(pos as int).subrange(0, 8) =~= buf@.subrange(pos as int, pos + 8));
        assert forall|l: Seq<Seq<u8>>|
            #[trigger] spec_starts_with_list(buf@.skip(pos as int), l) implies l.len() == count
            && crate::text::spec_starts_with(
            buf@.skip(pos + 8),
            spec_concat_from(l, 0),
        ) by {
            let b = buf@.skip(pos as int);
            let f = spec_framed_list(l);
            lemma_concat_from_eq(l);
            lemma_concat_min_len(l, 0);
            assert(b.subrange(0, f.len() as int).subrange(0, 8) =~= b.subrange(0, 8));
            assert(f.subrange(0, 8) =~= spec_u64_to_le_bytes(l.len() as u64));
            assert(l.len() <= usize::MAX) by {
                assert(8 * l.len() <= f.len() <= b.len());
            }
            assert(l.len() == count);
            assert(b.skip(8) =~= buf@.skip(pos + 8));
            assert forall|k: int|
                0 <= k < spec_concat_from(l, 0).len() implies buf@.skip(pos + 8)[k]
                == spec_concat_from(l, 0)[k] by {
                assert(b.subrange(0, f.len() as int)[8 + k] == f[8 + k]);
                assert(f[8 + k] == spec_concat_from(l, 0)[k]);
            }
            assert(buf@.skip(pos + 8).subrange(0, spec_concat_from(l, 0).len() as int)
                =~= spec_concat_from(l, 0));
        }
    }
    if count > usize::MAX as u64 {
        proof {
            assert forall|l: Seq<Seq<u8>>| !spec_starts_with_list(buf@.skip(pos as int), l) by {
                if spec_starts_with_list(buf@.skip(pos as int), l) {
                    lemma_concat_from_eq(l);
                    lemma_concat_min_len(l, 0);
                    assert(8 * l.len() <= spec_framed_list(l).len() <= buf@.skip(
                        pos as int,
                    ).len());
                }
            }
        }
        return Err(CacheError::DaemonProtocol);
    }
    let count = count as usize;
    let mut out: Vec<Vec<u8>> = Vec::new();
    let mut i: usize = 0;
    while i < count
        invariant
            i <= count,
            out@.len() == i,
            pos + 8 <= p <= buf@.len() <= usize::MAX,
            buf@.subrange(pos as int, pos + 8) == spec_u64_to_le_bytes(count as u64),
            buf@.subrange(pos + 8, p as int) == spec_framed_concat(
                out@.map_values(|s: Vec<u8>| s@),
            ),
            forall|l: Seq<Seq<u8>>|
                #[trigger] spec_starts_with_list(buf@.skip(pos as int), l) ==> l.len() == count
                    && crate::text::spec_starts_with(buf@.skip(p as int), spec_concat_from(l, i as int))
                    && (forall|j: int| 0 <= j < i ==> l[j] == out@.map_values(|s: Vec<u8>| s@)[j]),
        decreases count - i,
    {
        let ghost old_p = p as int;
        let ghost old_views = out@.map_values(|s: Vec<u8>| s@);
        let sp2 = match parse_string(buf, p) {
            Ok(v) => v,
            Err(e) => {
                proof {
                    assert forall|l: Seq<Seq<u8>>| !spec_starts_with_list(
                        buf@.skip(pos as int),
                        l,
                    ) by {
                        if spec_starts_with_list(buf@.skip(pos as int), l) {
                            assert(l.len() == count);
                            assert(crate::text::spec_starts_with(
                                buf@.skip(p as int),
                                spec_concat_from(l, i as int),
                            ));
                            lemma_framed_len(l[i as int]);
                            assert(spec_concat_from(l, i as int) == spec_framed(l[i as int])
                                + spec_concat_from(l, i + 1));
                            assert forall|k: int|
                                0 <= k < spec_framed(l[i as int]).len() implies buf@.skip(
                                p as int,
                            )[k] == spec_framed(l[i as int])[k] by {
                                assert(buf@.skip(p as int).subrange(
                                    0,
                                    spec_concat_from(l, i as int).len() as int,
                                )[k] == spec_concat_from(l, i as int)[k]);
                                assert(spec_concat_from(l, i as int)[k] == spec_framed(
                                    l[i as int],
                                )[k]);
                            }
                            assert(buf@.skip(p as int).subrange(
                                0,
                                spec_framed(l[i as int]).len() as int,
                            ) =~= spec_framed(l[i as int]));
                            assert(spec_starts_with_framed(buf@.skip(p as int), l[i as int]));
                        }
                    }
                }
                return Err(e);
            },
        };
        let (sv, p2) = sp2;
        let ghost s_view = sv@;
        out.push(sv);
        proof {
            let views = out@.map_values(|s: Vec<u8>| s@);
            assert(views.drop_last() =~= old_views);
            assert(views.last() == s_view);
            assert(buf@.subrange(pos + 8, p2 as int) =~= buf@.subrange(pos + 8, old_p)
                + buf@.subrange(old_p, p2 as int));
            assert forall|l: Seq<Seq<u8>>|
                #[trigger] spec_starts_with_list(buf@.skip(pos as int), l) implies l.len()
                == count && crate::text::spec_starts_with(
                buf@.skip(p2 as int),
                spec_concat_from(l, i + 1),
            ) && (forall|j: int| 0 <= j < i + 1 ==> l[j] == views[j]) by {
                assert(crate::text::spec_starts_with(
                    buf@.skip(old_p),
                    spec_concat_from(l, i as int),
                ));
                lemma_framed_len(l[i as int]);
                assert(spec_concat_from(l, i as int) == spec_framed(l[i as int])
                    + spec_concat_from(l, i + 1));
                assert forall|k: int|
                    0 <= k < spec_framed(l[i as int]).len() implies buf@.skip(old_p)[k]
                    == spec_framed(l[i as int])[k] by {
                    assert(buf@.skip(old_p).subrange(
                        0,
                        spec_concat_from(l, i as int).len() as int,
                    )[k] == spec_concat_from(l, i as int)[k]);
                    assert(spec_concat_from(l, i as int)[k] == spec_framed(l[i as int])[k]);
                }
                assert(buf@.skip(old_p).subrange(0, spec_framed(l[i as int]).len() as int)
                    =~= spec_framed(l[i as int]));
                assert(spec_starts_with_framed(buf@.skip(old_p), l[i as int]));
                assert(buf@.skip(old_p).subrange(0, spec_framed(s_view).len() as int)
                    =~= buf@.subrange(old_p, p2 as int));
                assert(spec_starts_with_framed(buf@.skip(old_p), s_view));
                lemma_frame_prefix_unique(buf@.skip(old_p), l[i as int], s_view);
                assert(l[i as int] == s_view);
                assert(views[i as int] == s_view);
                assert forall|k: int|
                    0 <= k < spec_concat_from(l, i + 1).len() implies buf@.skip(p2 as int)[k]
                    == spec_concat_from(l, i + 1)[k] by {
                    assert(buf@.skip(old_p)[spec_framed(l[i as int]).len() + k] == buf@.skip(
                        p2 as int,
                    )[k]);
                    assert(buf@.skip(old_p).subrange(
                        0,
                        spec_concat_from(l, i as int).len() as int,
                    )[spec_framed(l[i as int]).len() + k] == spec_concat_from(l, i as int)[
                    spec_framed(l[i as int]).len() + k]);
                }
                assert(buf@.skip(p2 as int).subrange(
                    0,
                    spec_concat_from(l, i + 1).len() as int,
                ) =~= spec_concat_from(l, i + 1));
            }
        }
        p = p2;
        i = i + 1;
    }
    proof {
        assert(buf@.subrange(pos as int, p as int) =~= buf@.subrange(pos as int, pos + 8)
            + buf@.subrange(pos + 8, p as int));
        assert(buf@.subrange(pos as int, p as int) == spec_framed_list(
            out@.map_values(|s: Vec<u8>| s@),
        ));
    }
    Ok((out, p))
}

/// A buffer that begins with `x + y` begins with `x`, and past `x`
/// begins with `y`.
pub(crate) proof fn lemma_prefix_split(b: Seq<u8>, x: Seq<u8>, y: Seq<u8>)
    requires
        crate::text::spec_starts_with(b, x + y),
    ensures
        crate::text::spec_starts_with(b, x),
        crate::text::spec_starts_with(b.skip(x.len() as int), y),
{
    assert forall|k: int| 0 <= k < x.len() implies b[k] == x[k] by {
        assert(b.subrange(0, (x + y).len() as int)[k] == (x + y)[k]);
    }
    assert(b.subrange(0, x.len() as int) =~= x);
    assert forall|k: int| 0 <= k < y.len() implies b.skip(x.len() as int)[k] == y[k] by {
        assert(b.subrange(0, (x + y).len() as int)[x.len() + k] == (x + y)[x.len() + k]);
    }
    assert(b.skip(x.len() as int).subrange(0, y.len() as int) =~= y);
}

/// Two string lists whose framings begin the same buffer are the
/// same list.
pub(crate) proof fn lemma_list_prefix_unique(b: Seq<u8>, l1: Seq<Seq<u8>>, l2: Seq<Seq<u8>>)
    requires
        b.len() <= usize::MAX,
        spec_starts_with_list(b, l1),
        spec_starts_with_list(b, l2),
    ensures
        l1 == l2,
{
    lemma_auto_spec_u64_to_from_le_bytes();
    lemma_concat_from_eq(l1);
    lemma_concat_from_eq(l2);
    lemma_concat_min_len(l1, 0);
    lemma_concat_min_len(l2, 0);
    assert(b.subrange(0, spec_framed_list(l1).len() as int).subrange(0, 8) =~= b.subrange(0, 8));
    assert(b.subrange(0, spec_framed_list(l2).len() as int).subrange(0, 8) =~= b.subrange(0, 8));
    assert(spec_framed_list(l1).subrange(0, 8) =~= spec_u64_to_le_bytes(l1.len() as u64));
    assert(spec_framed_list(l2).subrange(0, 8) =~= spec_u64_to_le_bytes(l2.len() as u64));
    assert(l1.len() <= usize::MAX && l2.len() <= usize::MAX) by {
        assert(8 * l1.len() <= spec_framed_list(l1).len() <= b.len());
        assert(8 * l2.len() <= spec_framed_list(l2).len() <= b.len());
    }
    assert(l1.len() == l2.len());
    assert(crate::text::spec_starts_with(b.skip(8), spec_concat_from(l1, 0))) by {
        lemma_list_tail_prefix(b, l1);
    }
    assert(crate::text::spec_starts_with(b.skip(8), spec_concat_from(l2, 0))) by {
        lemma_list_tail_prefix(b, l2);
    }
    lemma_concat_from_unique(b.skip(8), l1, l2, 0);
    assert(l1 =~= l2);
}

proof fn lemma_list_tail_prefix(b: Seq<u8>, l: Seq<Seq<u8>>)
    requires
        spec_starts_with_list(b, l),
    ensures
        crate::text::spec_starts_with(b.skip(8), spec_concat_from(l, 0)),
{
    lemma_auto_spec_u64_to_from_le_bytes();
    lemma_concat_from_eq(l);
    let c = spec_concat_from(l, 0);
    assert forall|k: int| 0 <= k < c.len() implies b.skip(8)[k] == c[k] by {
        assert(b.subrange(0, spec_framed_list(l).len() as int)[8 + k] == spec_framed_list(l)[8
            + k]);
        assert(spec_framed_list(l)[8 + k] == c[k]);
    }
    assert(b.skip(8).subrange(0, c.len() as int) =~= c);
}

/// Two framed concatenations of equally many strings that begin the
/// same buffer agree element for element.
pub(crate) proof fn lemma_concat_from_unique(b: Seq<u8>, l1: Seq<Seq<u8>>, l2: Seq<Seq<u8>>, i: int)
    requires
        b.len() <= usize::MAX,
        l1.len() == l2.len(),
        0 <= i <= l1.len(),
        crate::text::spec_starts_with(b, spec_concat_from(l1, i)),
        crate::text::spec_starts_with(b, spec_concat_from(l2, i)),
    ensures
        forall|j: int| i <= j < l1.len() ==> l1[j] == l2[j],
    decreases l1.len() - i,
{
    if i < l1.len() {
        lemma_framed_len(l1[i]);
        lemma_framed_len(l2[i]);
        assert(spec_concat_from(l1, i) == spec_framed(l1[i]) + spec_concat_from(l1, i + 1));
        assert(spec_concat_from(l2, i) == spec_framed(l2[i]) + spec_concat_from(l2, i + 1));
        assert forall|k: int| 0 <= k < spec_framed(l1[i]).len() implies b[k] == spec_framed(
            l1[i],
        )[k] by {
            assert(b.subrange(0, spec_concat_from(l1, i).len() as int)[k] == spec_concat_from(
                l1,
                i,
            )[k]);
        }
        assert forall|k: int| 0 <= k < spec_framed(l2[i]).len() implies b[k] == spec_framed(
            l2[i],
        )[k] by {
            assert(b.subrange(0, spec_concat_from(l2, i).len() as int)[k] == spec_concat_from(
                l2,
                i,
            )[k]);
        }
        assert(b.subrange(0, spec_framed(l1[i]).len() as int) =~= spec_framed(l1[i]));
        assert(b.subrange(0, spec_framed(l2[i]).len() as int) =~= spec_framed(l2[i]));
        assert(spec_starts_with_framed(b, l1[i]));
        assert(spec_starts_with_framed(b, l2[i]));
        lemma_frame_prefix_unique(b, l1[i], l2[i]);
        let flen = spec_framed(l1[i]).len() as int;
        assert(crate::text::spec_starts_with(b.skip(flen), spec_concat_from(l1, i + 1))) by {
            let c = spec_concat_from(l1, i + 1);
            assert forall|k: int| 0 <= k < c.len() implies b.skip(flen)[k] == c[k] by {
                assert(b.subrange(0, spec_concat_from(l1, i).len() as int)[flen + k]
                    == spec_concat_from(l1, i)[flen + k]);
            }
            assert(b.skip(flen).subrange(0, c.len() as int) =~= c);
        }
        assert(crate::text::spec_starts_with(b.skip(flen), spec_concat_from(l2, i + 1))) by {
            let c = spec_concat_from(l2, i + 1);
            assert forall|k: int| 0 <= k < c.len() implies b.skip(flen)[k] == c[k] by {
                assert(b.subrange(0, spec_concat_from(l2, i).len() as int)[flen + k]
                    == spec_concat_from(l2, i)[flen + k]);
            }
            assert(b.skip(flen).subrange(0, c.len() as int) =~= c);
        }
        lemma_concat_from_unique(b.skip(flen), l1, l2, i + 1);
    }
}

} // verus!
