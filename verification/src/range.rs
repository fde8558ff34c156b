//! HTTP range slicing over the archive stream. The serializer always
//! produces the full stream; this stage counts bytes and emits only
//! the requested window, slicing the chunks that span its edges.

use vstd::prelude::*;

verus! {

/// An integer clamped into `[0, n]`.
pub open spec fn spec_clamp(a: int, n: int) -> int {
    if a < 0 {
        0
    } else if a > n {
        n
    } else {
        a
    }
}

/// The part of `s` that lies inside the window `[a, b)`, both ends
/// clamped to the string.
pub open spec fn spec_clamped_window(s: Seq<u8>, a: int, b: int) -> Seq<u8> {
    let lo = spec_clamp(a, s.len() as int);
    let hi0 = spec_clamp(b, s.len() as int);
    let hi = if hi0 < lo {
        lo
    } else {
        hi0
    };
    s.subrange(lo, hi)
}

/// The part of a chunk sitting at stream position `pos` that falls in
/// the window `[off, off + len)` of the whole stream.
pub open spec fn spec_clip(c: Seq<u8>, pos: int, off: int, len: int) -> Seq<u8> {
    spec_clamped_window(c, off - pos, off + len - pos)
}

/// The whole stream: its chunks in order.
pub open spec fn spec_flatten(chunks: Seq<Seq<u8>>) -> Seq<u8>
    decreases chunks.len(),
{
    if chunks.len() == 0 {
        Seq::empty()
    } else {
        spec_flatten(chunks.drop_last()) + chunks.last()
    }
}

/// What the slicing stage emits over a chunk sequence.
pub open spec fn spec_clips(chunks: Seq<Seq<u8>>, off: int, len: int) -> Seq<u8>
    decreases chunks.len(),
{
    if chunks.len() == 0 {
        Seq::empty()
    } else {
        spec_clips(chunks.drop_last(), off, len) + spec_clip(
            chunks.last(),
            spec_flatten(chunks.drop_last()).len() as int,
            off,
            len,
        )
    }
}

proof fn lemma_concat_window(x: Seq<u8>, y: Seq<u8>, a: int, b: int)
    ensures
        spec_clamped_window(x + y, a, b) == spec_clamped_window(x, a, b) + spec_clamped_window(
            y,
            a - x.len(),
            b - x.len(),
        ),
{
    let n = x.len() as int;
    let m = y.len() as int;
    assert((x + y).len() == n + m);
    assert(spec_clamped_window(x + y, a, b) =~= spec_clamped_window(x, a, b)
        + spec_clamped_window(y, a - n, b - n)) by {
        let lo = spec_clamp(a, n + m);
        let hi0 = spec_clamp(b, n + m);
        let hi = if hi0 < lo {
            lo
        } else {
            hi0
        };
        let lo1 = spec_clamp(a, n);
        let hi01 = spec_clamp(b, n);
        let hi1 = if hi01 < lo1 {
            lo1
        } else {
            hi01
        };
        let lo2 = spec_clamp(a - n, m);
        let hi02 = spec_clamp(b - n, m);
        let hi2 = if hi02 < lo2 {
            lo2
        } else {
            hi02
        };
        assert(hi - lo == (hi1 - lo1) + (hi2 - lo2));
        assert forall|k: int|
            0 <= k < hi - lo implies (x + y).subrange(lo, hi)[k] == (x.subrange(lo1, hi1)
            + y.subrange(lo2, hi2))[k] by {
            if k < hi1 - lo1 {
                assert((x + y)[lo + k] == x[lo1 + k]);
            } else {
                assert((x + y)[lo + k] == y[lo2 + (k - (hi1 - lo1))]);
            }
        }
    }
}

/// Law: range slicing. Clipping each chunk of a stream against the
/// window `[off, off + len)` and concatenating the pieces yields
/// exactly the bytes `off .. off + len` of the whole stream.
pub proof fn lemma_range_slicing(chunks: Seq<Seq<u8>>, off: int, len: int)
    requires
        0 <= off,
        0 <= len,
        off + len <= spec_flatten(chunks).len(),
    ensures
        spec_clips(chunks, off, len) == spec_flatten(chunks).subrange(off, off + len),
{
    lemma_clips_window(chunks, off, len);
    let f = spec_flatten(chunks);
    assert(spec_clamped_window(f, off, off + len) =~= f.subrange(off, off + len));
}

proof fn lemma_clips_window(chunks: Seq<Seq<u8>>, off: int, len: int)
    ensures
        spec_clips(chunks, off, len) == spec_clamped_window(spec_flatten(chunks), off, off + len),
    decreases chunks.len(),
{
    if chunks.len() == 0 {
        assert(spec_clamped_window(spec_flatten(chunks), off, off + len) =~= Seq::<u8>::empty());
    } else {
        let d = chunks.drop_last();
        let l = chunks.last();
        lemma_clips_window(d, off, len);
        lemma_concat_window(spec_flatten(d), l, off, off + len);
    }
}

/// Emits the portion of one chunk that falls inside the requested
/// window, given how many stream bytes preceded the chunk.
pub fn window_slice(chunk: &[u8], sent: u64, offset: u64, length: u64) -> (r: Vec<u8>)
    requires
        sent + chunk@.len() <= u64::MAX,
        offset + length <= u64::MAX,
    ensures
        r@ == spec_clip(chunk@, sent as int, offset as int, length as int),
{
    let len = chunk.len() as u64;
    if sent + len <= offset || sent >= offset + length || length == 0 {
        let r: Vec<u8> = Vec::new();
        proof {
            assert(r@ =~= spec_clip(chunk@, sent as int, offset as int, length as int));
        }
        return r;
    }
    let start = if sent < offset {
        offset - sent
    } else {
        0
    };
    let end = if sent + len > offset + length {
        offset + length - sent
    } else {
        len
    };
    let r = vstd::slice::slice_to_vec(
        vstd::slice::slice_subrange(chunk, start as usize, end as usize),
    );
    proof {
        assert(r@ =~= spec_clip(chunk@, sent as int, offset as int, length as int));
    }
    r
}

/// What the server does with a request's range header.
pub enum RangeDecision {
    /// No range header: the whole archive, status 200.
    Whole,
    /// One satisfiable range: that window, status 206.
    Partial { offset: u64, length: u64 },
    /// A range header that matches nothing in the archive: status 416.
    NotSatisfiable,
}

/// The `(start, length)` ranges a range header denotes against a
/// response of the given size, or nothing for a header the parser
/// rejects: what http_range's `HttpRange::parse` returns, a function
/// of its two arguments alone.
pub uninterp spec fn ranges_of(header: Seq<char>, size: u64) -> Option<Seq<(u64, u64)>>;

/// Relies on http_range's `HttpRange::parse`: names its result, and
/// every range it returns satisfies `start + length <= size`; a
/// header it cannot satisfy is an error.
#[verifier::external_body]
fn parse_ranges(header: &str, size: u64) -> (r: Option<Vec<(u64, u64)>>)
    ensures
        match r {
            Some(v) => {
                &&& ranges_of(header@, size) == Some(v@)
                &&& forall|i: int| 0 <= i < v@.len() ==> (#[trigger] v@[i]).0 + v@[i].1 <= size
            },
            None => ranges_of(header@, size) is None,
        },
{
    match http_range::HttpRange::parse(header, size) {
        Ok(v) => Some(v.iter().map(|x| (x.start, x.length)).collect()),
        Err(_) => None,
    }
}

/// Decides how to serve an archive of `nar_size` bytes under an
/// optional range header: the first range the header denotes wins; a
/// header denoting no satisfiable range yields status 416.
pub fn plan_range(header: Option<&str>, nar_size: u64) -> (r: RangeDecision)
    ensures
        match r {
            RangeDecision::Whole => header is None,
            RangeDecision::Partial { offset, length } => {
                &&& header matches Some(h) && (ranges_of(h@, nar_size) matches Some(v) && v.len()
                    > 0 && v[0] == (offset, length))
                &&& offset + length <= nar_size
            },
            RangeDecision::NotSatisfiable => header matches Some(h) && (ranges_of(h@, nar_size)
                matches Some(v) ==> v.len() == 0),
        },
{
    match header {
        None => RangeDecision::Whole,
        Some(h) => match parse_ranges(h, nar_size) {
            Some(ranges) => {
                if ranges.len() == 0 {
                    RangeDecision::NotSatisfiable
                } else {
                    let (offset, length) = ranges[0];
                    proof {
                        assert(ranges@[0] == (offset, length));
                    }
                    RangeDecision::Partial { offset, length }
                }
            },
            None => RangeDecision::NotSatisfiable,
        },
    }
}

} // verus!
