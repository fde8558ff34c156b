//! Byte-string utilities shared by the formatters and parsers: prefix
//! tests, substring search, splitting, and decimal rendering.

use vstd::prelude::*;

verus! {

/// Whether `pre` is a prefix of `s`.
pub open spec fn spec_starts_with(s: Seq<u8>, pre: Seq<u8>) -> bool {
    s.len() >= pre.len() && s.subrange(0, pre.len() as int) == pre
}

/// Prefix test on byte slices.
pub fn starts_with(s: &[u8], pre: &[u8]) -> (r: bool)
    ensures
        r == spec_starts_with(s@, pre@),
{
    if s.len() < pre.len() {
        proof {
            assert(!spec_starts_with(s@, pre@));
        }
        return false;
    }
    let mut i: usize = 0;
    while i < pre.len()
        invariant
            i <= pre@.len() <= s@.len(),
            forall|k: int| 0 <= k < i ==> s@[k] == pre@[k],
        decreases pre@.len() - i,
    {
        if s[i] != pre[i] {
            proof {
                assert(s@.subrange(0, pre@.len() as int)[i as int] != pre@[i as int]);
            }
            return false;
        }
        i = i + 1;
    }
    proof {
        assert(s@.subrange(0, pre@.len() as int) =~= pre@);
    }
    true
}

/// Equality of byte slices.
pub fn bytes_eq(a: &[u8], b: &[u8]) -> (r: bool)
    ensures
        r == (a@ == b@),
{
    if a.len() != b.len() {
        proof {
            assert(a@ != b@);
        }
        return false;
    }
    let mut i: usize = 0;
    while i < a.len()
        invariant
            i <= a@.len() == b@.len(),
            forall|k: int| 0 <= k < i ==> a@[k] == b@[k],
        decreases a@.len() - i,
    {
        if a[i] != b[i] {
            return false;
        }
        i = i + 1;
    }
    proof {
        assert(a@ =~= b@);
    }
    true
}

/// Whether `needle` occurs in `hay` at position `i`.
pub open spec fn spec_match_at(hay: Seq<u8>, needle: Seq<u8>, i: int) -> bool {
    0 <= i && i + needle.len() <= hay.len() && hay.subrange(i, i + needle.len() as int) == needle
}

/// First occurrence of `needle` in `hay`, if any.
pub fn find_subslice(hay: &[u8], needle: &[u8]) -> (r: Option<usize>)
    ensures
        match r {
            Some(i) => spec_match_at(hay@, needle@, i as int) && (forall|j: int|
                0 <= j < i ==> !spec_match_at(hay@, needle@, j)),
            None => forall|j: int| !spec_match_at(hay@, needle@, j),
        },
{
    if needle.len() > hay.len() {
        proof {
            assert forall|j: int| !spec_match_at(hay@, needle@, j) by {}
        }
        return None;
    }
    if needle.len() == 0 {
        proof {
            assert(hay@.subrange(0, 0) =~= needle@);
        }
        return Some(0);
    }
    let mut i: usize = 0;
    while i <= hay.len() - needle.len()
        invariant
            1 <= needle@.len() <= hay@.len(),
            i <= hay@.len() - needle@.len() + 1,
            forall|j: int| 0 <= j < i ==> !spec_match_at(hay@, needle@, j),
        decreases hay@.len() - needle@.len() + 1 - i,
    {
        let sub = vstd::slice::slice_subrange(hay, i, i + needle.len());
        if bytes_eq(sub, needle) {
            return Some(i);
        }
        i = i + 1;
    }
    proof {
        assert forall|j: int| !spec_match_at(hay@, needle@, j) by {
            if 0 <= j && j + needle@.len() <= hay@.len() {
                assert(j < i);
            }
        }
    }
    None
}

/// Whether `needle` occurs anywhere in `hay`.
pub fn contains_subslice(hay: &[u8], needle: &[u8]) -> (r: bool)
    ensures
        r == exists|j: int| spec_match_at(hay@, needle@, j),
{
    match find_subslice(hay, needle) {
        Some(i) => {
            proof {
                assert(spec_match_at(hay@, needle@, i as int));
            }
            true
        },
        None => false,
    }
}

/// Position of the first occurrence of byte `b` in `s`, if any.
pub fn find_byte(s: &[u8], b: u8) -> (r: Option<usize>)
    ensures
        match r {
            Some(i) => i < s@.len() && s@[i as int] == b && (forall|j: int|
                0 <= j < i ==> s@[j] != b),
            None => forall|j: int| 0 <= j < s@.len() ==> s@[j] != b,
        },
{
    let mut i: usize = 0;
    while i < s.len()
        invariant
            i <= s@.len(),
            forall|j: int| 0 <= j < i ==> s@[j] != b,
        decreases s@.len() - i,
    {
        if s[i] == b {
            return Some(i);
        }
        i = i + 1;
    }
    None
}

/// Position after the last occurrence of byte `b` in `s`: `None` when
/// `b` does not occur.
pub fn rfind_byte(s: &[u8], b: u8) -> (r: Option<usize>)
    ensures
        match r {
            Some(i) => i < s@.len() && s@[i as int] == b && (forall|j: int|
                i < j < s@.len() ==> s@[j] != b),
            None => forall|j: int| 0 <= j < s@.len() ==> s@[j] != b,
        },
{
    let mut i: usize = s.len();
    while i > 0
        invariant
            i <= s@.len(),
            forall|j: int| i <= j < s@.len() ==> s@[j] != b,
        decreases i,
    {
        i = i - 1;
        if s[i] == b {
            return Some(i);
        }
    }
    None
}

/// No byte of `s` equals `b`.
pub open spec fn spec_no_byte(s: Seq<u8>, b: u8) -> bool {
    forall|k: int| 0 <= k < s.len() ==> s[k] != b
}

/// Every element is non-empty and free of the separator.
pub open spec fn spec_joinable(l: Seq<Seq<u8>>, sep: u8) -> bool {
    forall|i: int| 0 <= i < l.len() ==> (#[trigger] l[i]).len() > 0 && spec_no_byte(l[i], sep)
}

proof fn lemma_join_min_len(l: Seq<Seq<u8>>, sep: u8)
    requires
        spec_joinable(l, sep),
        l.len() >= 1,
    ensures
        spec_join(l, sep).len() >= 1,
    decreases l.len(),
{
    if l.len() == 1 {
        assert(l[0].len() > 0);
    } else {
        assert(l.last().len() > 0);
    }
}

/// Joining with a separator that no element contains, none of them
/// empty, is injective: equal joins force equal lists. In particular
/// permuting a list of distinct such elements changes the join.
pub proof fn lemma_join_injective(l1: Seq<Seq<u8>>, l2: Seq<Seq<u8>>, sep: u8)
    requires
        spec_joinable(l1, sep),
        spec_joinable(l2, sep),
        spec_join(l1, sep) == spec_join(l2, sep),
    ensures
        l1 == l2,
    decreases l1.len(),
{
    let j = spec_join(l1, sep);
    if l1.len() == 0 {
        if l2.len() >= 1 {
            lemma_join_min_len(l2, sep);
            assert(false);
        }
        assert(l1 =~= l2);
    } else if l2.len() == 0 {
        lemma_join_min_len(l1, sep);
        assert(false);
    } else if l1.len() == 1 && l2.len() == 1 {
        assert(l1[0] == j);
        assert(l2[0] == j);
        assert(l1 =~= l2);
    } else if l1.len() == 1 {
        // l2 has at least two elements: its join holds a separator,
        // but the single element of l1 is separator-free.
        let d2 = l2.drop_last();
        let p2 = spec_join(d2, sep).len() as int;
        assert(j[p2] == sep) by {
            assert(j == spec_join(d2, sep) + seq![sep] + l2.last());
        }
        assert(l1[0] == j);
        assert(spec_no_byte(l1[0], sep));
        assert(0 <= p2 < j.len());
        assert(false);
    } else if l2.len() == 1 {
        let d1 = l1.drop_last();
        let p1 = spec_join(d1, sep).len() as int;
        assert(j[p1] == sep) by {
            assert(j == spec_join(d1, sep) + seq![sep] + l1.last());
        }
        assert(l2[0] == j);
        assert(spec_no_byte(l2[0], sep));
        assert(0 <= p1 < j.len());
        assert(false);
    } else {
        let d1 = l1.drop_last();
        let d2 = l2.drop_last();
        let b1 = l1.last();
        let b2 = l2.last();
        let p1 = spec_join(d1, sep).len() as int;
        let p2 = spec_join(d2, sep).len() as int;
        assert(j == spec_join(d1, sep) + seq![sep] + b1);
        assert(j == spec_join(d2, sep) + seq![sep] + b2);
        assert(j[p1] == sep);
        assert(j[p2] == sep);
        assert(spec_no_byte(b1, sep));
        assert(spec_no_byte(b2, sep));
        assert forall|k: int| p1 < k < j.len() implies j[k] != sep by {
            assert(j[k] == b1[k - p1 - 1]);
        }
        assert forall|k: int| p2 < k < j.len() implies j[k] != sep by {
            assert(j[k] == b2[k - p2 - 1]);
        }
        if p1 < p2 {
            assert(j[p2] == sep);
            assert(false);
        }
        if p2 < p1 {
            assert(j[p1] == sep);
            assert(false);
        }
        assert(p1 == p2);
        assert(spec_join(d1, sep) =~= spec_join(d2, sep)) by {
            assert forall|k: int| 0 <= k < p1 implies spec_join(d1, sep)[k] == spec_join(
                d2,
                sep,
            )[k] by {
                assert(j[k] == spec_join(d1, sep)[k]);
                assert(j[k] == spec_join(d2, sep)[k]);
            }
        }
        assert(b1 =~= b2) by {
            assert(b1.len() == j.len() - p1 - 1);
            assert(b2.len() == j.len() - p2 - 1);
            assert forall|k: int| 0 <= k < b1.len() implies b1[k] == b2[k] by {
                assert(j[p1 + 1 + k] == b1[k]);
                assert(j[p2 + 1 + k] == b2[k]);
            }
        }
        assert(spec_joinable(d1, sep)) by {
            assert forall|i: int|
                0 <= i < d1.len() implies (#[trigger] d1[i]).len() > 0 && spec_no_byte(
                d1[i],
                sep,
            ) by {
                assert(d1[i] == l1[i]);
            }
        }
        assert(spec_joinable(d2, sep)) by {
            assert forall|i: int|
                0 <= i < d2.len() implies (#[trigger] d2[i]).len() > 0 && spec_no_byte(
                d2[i],
                sep,
            ) by {
                assert(d2[i] == l2[i]);
            }
        }
        lemma_join_injective(d1, d2, sep);
        assert(l1 =~= l2) by {
            assert(l1.len() == l2.len());
            assert forall|i: int| 0 <= i < l1.len() implies l1[i] == l2[i] by {
                if i < l1.len() - 1 {
                    assert(d1[i] == l1[i]);
                    assert(d2[i] == l2[i]);
                }
            }
        }
    }
}

/// The position just after the last occurrence of `b` in `t`, or 0
/// when `b` does not occur.
pub open spec fn spec_after_last(t: Seq<u8>, b: u8) -> int
    decreases t.len(),
{
    if t.len() == 0 {
        0
    } else if t.last() == b {
        t.len() as int
    } else {
        spec_after_last(t.drop_last(), b)
    }
}

/// Links a found last occurrence to `spec_after_last`.
pub proof fn lemma_after_last_range(t: Seq<u8>, b: u8, q: int)
    requires
        0 <= q <= t.len(),
        forall|k: int| q <= k < t.len() ==> t[k] != b,
        q > 0 ==> t[q - 1] == b,
    ensures
        spec_after_last(t, b) == q,
    decreases t.len(),
{
    if t.len() == 0 {
    } else if t.last() == b {
        assert(q == t.len());
    } else {
        assert(q < t.len());
        lemma_after_last_range(t.drop_last(), b, q);
    }
}

/// The decimal rendering of a non-negative integer.
pub open spec fn spec_dec(n: int) -> Seq<u8>
    decreases n,
{
    if n < 10 {
        seq![(48 + if n >= 0 {
            n
        } else {
            0
        }) as u8]
    } else {
        spec_dec(n / 10) + seq![(48 + n % 10) as u8]
    }
}

/// Renders a u64 in decimal.
pub fn u64_to_dec(n: u64) -> (r: Vec<u8>)
    ensures
        r@ == spec_dec(n as int),
    decreases n,
{
    if n < 10 {
        let mut v: Vec<u8> = Vec::new();
        v.push(48 + (n as u8));
        proof {
            assert(v@ =~= spec_dec(n as int));
        }
        v
    } else {
        let mut v = u64_to_dec(n / 10);
        v.push(48 + ((n % 10) as u8));
        proof {
            assert(v@ =~= spec_dec(n as int));
        }
        v
    }
}

/// The concatenation of a list of byte strings with a one-byte
/// separator between neighbours.
pub open spec fn spec_join(l: Seq<Seq<u8>>, sep: u8) -> Seq<u8>
    decreases l.len(),
{
    if l.len() == 0 {
        Seq::empty()
    } else if l.len() == 1 {
        l[0]
    } else {
        spec_join(l.drop_last(), sep) + seq![sep] + l.last()
    }
}

/// Joins byte strings with a separator byte.
pub fn join(l: &Vec<Vec<u8>>, sep: u8) -> (r: Vec<u8>)
    ensures
        r@ == spec_join(l@.map_values(|s: Vec<u8>| s@), sep),
{
    let ghost views = l@.map_values(|s: Vec<u8>| s@);
    let mut out: Vec<u8> = Vec::new();
    let mut i: usize = 0;
    proof {
        assert(views.subrange(0, 0) =~= Seq::<Seq<u8>>::empty());
    }
    while i < l.len()
        invariant
            i <= l@.len(),
            views == l@.map_values(|s: Vec<u8>| s@),
            views.len() == l@.len(),
            out@ == spec_join(views.subrange(0, i as int), sep),
        decreases l@.len() - i,
    {
        if i > 0 {
            out.push(sep);
        }
        out.extend_from_slice(l[i].as_slice());
        proof {
            let pre = views.subrange(0, i as int);
            let cur = views.subrange(0, i + 1);
            assert(cur.drop_last() =~= pre);
            assert(cur.last() == views[i as int]);
            if i == 0 {
                assert(out@ =~= spec_join(cur, sep));
            } else {
                assert(out@ =~= spec_join(cur, sep));
            }
        }
        i = i + 1;
    }
    proof {
        assert(views.subrange(0, views.len() as int) =~= views);
    }
    out
}

} // verus!
