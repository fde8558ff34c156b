//! The archive lister: walks a tree and renders the JSON document
//! `{"version":1,"root":<entry>}` describing it without file
//! contents. `narOffset` is preserved for compatibility and always
//! null here.

use vstd::prelude::*;

use crate::base32::spec_hex_digit;
use crate::nar::{NarEntry, NarNode};
use crate::text::{spec_dec, u64_to_dec};

verus! {

/// The JSON escape of one byte: quote and backslash escaped, control
/// bytes as their short escapes or `\u00XX`, everything else kept.
pub open spec fn spec_esc_byte(b: u8) -> Seq<u8> {
    if b == 34 {
        seq![92u8, 34u8]
    } else if b == 92 {
        seq![92u8, 92u8]
    } else if b == 8 {
        seq![92u8, 98u8]
    } else if b == 9 {
        seq![92u8, 116u8]
    } else if b == 10 {
        seq![92u8, 110u8]
    } else if b == 12 {
        seq![92u8, 102u8]
    } else if b == 13 {
        seq![92u8, 114u8]
    } else if b < 32 {
        seq![92u8, 117u8, 48u8, 48u8, spec_hex_digit(b / 16), spec_hex_digit(b % 16)]
    } else {
        seq![b]
    }
}

/// The JSON escape of a byte string.
pub open spec fn spec_json_escape(s: Seq<u8>) -> Seq<u8>
    decreases s.len(),
{
    if s.len() == 0 {
        Seq::empty()
    } else {
        spec_json_escape(s.drop_last()) + spec_esc_byte(s.last())
    }
}

/// Appends the JSON escape of `s` to `out`.
pub fn escape_json_into(out: &mut Vec<u8>, s: &[u8])
    ensures
        final(out)@ == old(out)@ + spec_json_escape(s@),
{
    let mut i: usize = 0;
    proof {
        assert(spec_json_escape(s@.subrange(0, 0)) =~= Seq::<u8>::empty());
        assert(out@ =~= old(out)@ + spec_json_escape(s@.subrange(0, 0)));
    }
    while i < s.len()
        invariant
            i <= s@.len(),
            out@ == old(out)@ + spec_json_escape(s@.subrange(0, i as int)),
        decreases s@.len() - i,
    {
        let b = s[i];
        let ghost before = out@;
        if b == 34 {
            out.push(92);
            out.push(34);
        } else if b == 92 {
            out.push(92);
            out.push(92);
        } else if b == 8 {
            out.push(92);
            out.push(98);
        } else if b == 9 {
            out.push(92);
            out.push(116);
        } else if b == 10 {
            out.push(92);
            out.push(110);
        } else if b == 12 {
            out.push(92);
            out.push(102);
        } else if b == 13 {
            out.push(92);
            out.push(114);
        } else if b < 32 {
            out.push(92);
            out.push(117);
            out.push(48);
            out.push(48);
            let hi = b / 16;
            let lo = b % 16;
            out.push(
                if hi < 10 {
                    48 + hi
                } else {
                    97 + hi - 10
                },
            );
            out.push(
                if lo < 10 {
                    48 + lo
                } else {
                    97 + lo - 10
                },
            );
        } else {
            out.push(b);
        }
        proof {
            let cur = s@.subrange(0, i + 1);
            assert(cur.drop_last() =~= s@.subrange(0, i as int));
            assert(cur.last() == s@[i as int]);
            assert(out@ =~= before + spec_esc_byte(s@[i as int]));
            assert(out@ =~= old(out)@ + spec_json_escape(cur));
        }
        i = i + 1;
    }
    proof {
        assert(s@.subrange(0, s@.len() as int) =~= s@);
    }
}

/// The bytes of `{\"type\":\"regular\",\"narOffset\":null,\"size\":`.
pub open spec fn spec_obj_regular() -> Seq<u8> {
    seq![123u8, 34u8, 116u8, 121u8, 112u8, 101u8, 34u8, 58u8, 34u8, 114u8, 101u8, 103u8, 117u8, 108u8, 97u8, 114u8, 34u8, 44u8, 34u8, 110u8, 97u8, 114u8, 79u8, 102u8, 102u8, 115u8, 101u8, 116u8, 34u8, 58u8, 110u8, 117u8, 108u8, 108u8, 44u8, 34u8, 115u8, 105u8, 122u8, 101u8, 34u8, 58u8]
}

fn push_obj_regular(out: &mut Vec<u8>)
    ensures
        final(out)@ == old(out)@ + spec_obj_regular(),
{
    let l: [u8; 42] = [123, 34, 116, 121, 112, 101, 34, 58, 34, 114, 101, 103, 117, 108, 97, 114, 34, 44, 34, 110, 97, 114, 79, 102, 102, 115, 101, 116, 34, 58, 110, 117, 108, 108, 44, 34, 115, 105, 122, 101, 34, 58];
    out.extend_from_slice(l.as_slice());
    proof {
        assert(l@ =~= spec_obj_regular());
        assert(out@ =~= old(out)@ + spec_obj_regular());
    }
}

/// The bytes of `,\"executable\":true`.
pub open spec fn spec_exec_true() -> Seq<u8> {
    seq![44u8, 34u8, 101u8, 120u8, 101u8, 99u8, 117u8, 116u8, 97u8, 98u8, 108u8, 101u8, 34u8, 58u8, 116u8, 114u8, 117u8, 101u8]
}

fn push_exec_true(out: &mut Vec<u8>)
    ensures
        final(out)@ == old(out)@ + spec_exec_true(),
{
    let l: [u8; 18] = [44, 34, 101, 120, 101, 99, 117, 116, 97, 98, 108, 101, 34, 58, 116, 114, 117, 101];
    out.extend_from_slice(l.as_slice());
    proof {
        assert(l@ =~= spec_exec_true());
        assert(out@ =~= old(out)@ + spec_exec_true());
    }
}

/// The bytes of `}`.
pub open spec fn spec_close_brace() -> Seq<u8> {
    seq![125u8]
}

fn push_close_brace(out: &mut Vec<u8>)
    ensures
        final(out)@ == old(out)@ + spec_close_brace(),
{
    let l: [u8; 1] = [125];
    out.extend_from_slice(l.as_slice());
    proof {
        assert(l@ =~= spec_close_brace());
        assert(out@ =~= old(out)@ + spec_close_brace());
    }
}

/// The bytes of `{\"type\":\"symlink\",\"target\":\"`.
pub open spec fn spec_obj_symlink() -> Seq<u8> {
    seq![123u8, 34u8, 116u8, 121u8, 112u8, 101u8, 34u8, 58u8, 34u8, 115u8, 121u8, 109u8, 108u8, 105u8, 110u8, 107u8, 34u8, 44u8, 34u8, 116u8, 97u8, 114u8, 103u8, 101u8, 116u8, 34u8, 58u8, 34u8]
}

fn push_obj_symlink(out: &mut Vec<u8>)
    ensures
        final(out)@ == old(out)@ + spec_obj_symlink(),
{
    let l: [u8; 28] = [123, 34, 116, 121, 112, 101, 34, 58, 34, 115, 121, 109, 108, 105, 110, 107, 34, 44, 34, 116, 97, 114, 103, 101, 116, 34, 58, 34];
    out.extend_from_slice(l.as_slice());
    proof {
        assert(l@ =~= spec_obj_symlink());
        assert(out@ =~= old(out)@ + spec_obj_symlink());
    }
}

/// The bytes of `\"}`.
pub open spec fn spec_quote_close() -> Seq<u8> {
    seq![34u8, 125u8]
}

fn push_quote_close(out: &mut Vec<u8>)
    ensures
        final(out)@ == old(out)@ + spec_quote_close(),
{
    let l: [u8; 2] = [34, 125];
    out.extend_from_slice(l.as_slice());
    proof {
        assert(l@ =~= spec_quote_close());
        assert(out@ =~= old(out)@ + spec_quote_close());
    }
}

/// The bytes of `{\"type\":\"directory\",\"entries\":{`.
pub open spec fn spec_obj_dir() -> Seq<u8> {
    seq![123u8, 34u8, 116u8, 121u8, 112u8, 101u8, 34u8, 58u8, 34u8, 100u8, 105u8, 114u8, 101u8, 99u8, 116u8, 111u8, 114u8, 121u8, 34u8, 44u8, 34u8, 101u8, 110u8, 116u8, 114u8, 105u8, 101u8, 115u8, 34u8, 58u8, 123u8]
}

fn push_obj_dir(out: &mut Vec<u8>)
    ensures
        final(out)@ == old(out)@ + spec_obj_dir(),
{
    let l: [u8; 31] = [123, 34, 116, 121, 112, 101, 34, 58, 34, 100, 105, 114, 101, 99, 116, 111, 114, 121, 34, 44, 34, 101, 110, 116, 114, 105, 101, 115, 34, 58, 123];
    out.extend_from_slice(l.as_slice());
    proof {
        assert(l@ =~= spec_obj_dir());
        assert(out@ =~= old(out)@ + spec_obj_dir());
    }
}

/// The bytes of `}}`.
pub open spec fn spec_dir_close() -> Seq<u8> {
    seq![125u8, 125u8]
}

fn push_dir_close(out: &mut Vec<u8>)
    ensures
        final(out)@ == old(out)@ + spec_dir_close(),
{
    let l: [u8; 2] = [125, 125];
    out.extend_from_slice(l.as_slice());
    proof {
        assert(l@ =~= spec_dir_close());
        assert(out@ =~= old(out)@ + spec_dir_close());
    }
}

/// The bytes of `\"`.
pub open spec fn spec_quote() -> Seq<u8> {
    seq![34u8]
}

fn push_quote(out: &mut Vec<u8>)
    ensures
        final(out)@ == old(out)@ + spec_quote(),
{
    let l: [u8; 1] = [34];
    out.extend_from_slice(l.as_slice());
    proof {
        assert(l@ =~= spec_quote());
        assert(out@ =~= old(out)@ + spec_quote());
    }
}

/// The bytes of `\":`.
pub open spec fn spec_quote_colon() -> Seq<u8> {
    seq![34u8, 58u8]
}

fn push_quote_colon(out: &mut Vec<u8>)
    ensures
        final(out)@ == old(out)@ + spec_quote_colon(),
{
    let l: [u8; 2] = [34, 58];
    out.extend_from_slice(l.as_slice());
    proof {
        assert(l@ =~= spec_quote_colon());
        assert(out@ =~= old(out)@ + spec_quote_colon());
    }
}

/// The bytes of `,`.
pub open spec fn spec_comma() -> Seq<u8> {
    seq![44u8]
}

fn push_comma(out: &mut Vec<u8>)
    ensures
        final(out)@ == old(out)@ + spec_comma(),
{
    let l: [u8; 1] = [44];
    out.extend_from_slice(l.as_slice());
    proof {
        assert(l@ =~= spec_comma());
        assert(out@ =~= old(out)@ + spec_comma());
    }
}

/// The bytes of `{\"version\":1,\"root\":`.
pub open spec fn spec_list_open() -> Seq<u8> {
    seq![123u8, 34u8, 118u8, 101u8, 114u8, 115u8, 105u8, 111u8, 110u8, 34u8, 58u8, 49u8, 44u8, 34u8, 114u8, 111u8, 111u8, 116u8, 34u8, 58u8]
}

fn push_list_open(out: &mut Vec<u8>)
    ensures
        final(out)@ == old(out)@ + spec_list_open(),
{
    let l: [u8; 20] = [123, 34, 118, 101, 114, 115, 105, 111, 110, 34, 58, 49, 44, 34, 114, 111, 111, 116, 34, 58];
    out.extend_from_slice(l.as_slice());
    proof {
        assert(l@ =~= spec_list_open());
        assert(out@ =~= old(out)@ + spec_list_open());
    }
}

/// The JSON entry for one node. A regular file reports its size and,
/// when set, its executable bit; a symlink its target; a directory
/// its entries keyed by their on-disk names, in tree order.
pub open spec fn spec_node_json(t: NarNode) -> Seq<u8>
    decreases t,
{
    match t {
        NarNode::Regular { executable, contents } => spec_obj_regular() + spec_dec(
            contents@.len() as int,
        ) + (if executable {
            spec_exec_true()
        } else {
            Seq::<u8>::empty()
        }) + spec_close_brace(),
        NarNode::Symlink { target } => spec_obj_symlink() + spec_json_escape(target@)
            + spec_quote_close(),
        NarNode::Directory { entries } => spec_obj_dir() + spec_entries_json(entries, 0)
            + spec_dir_close(),
    }
}

/// The JSON members for the entries from index `i` on, comma-joined.
pub open spec fn spec_entries_json(es: Vec<NarEntry>, i: int) -> Seq<u8>
    decreases es, es@.len() - i,
{
    if i < 0 || i >= es@.len() {
        Seq::<u8>::empty()
    } else {
        (if i > 0 {
            spec_comma()
        } else {
            Seq::<u8>::empty()
        }) + spec_quote() + spec_json_escape(es@[i].name@) + spec_quote_colon() + spec_node_json(
            es@[i].node,
        ) + spec_entries_json(es, i + 1)
    }
}

/// The whole listing document.
pub open spec fn spec_nar_list_json(t: NarNode) -> Seq<u8> {
    spec_list_open() + spec_node_json(t) + spec_close_brace()
}

/// Renders the JSON entry of one node into `out`.
#[verifier::rlimit(100)]
pub fn node_json_into(out: &mut Vec<u8>, t: &NarNode)
    ensures
        final(out)@ == old(out)@ + spec_node_json(*t),
    decreases *t,
{
    match t {
        NarNode::Regular { executable, contents } => {
            push_obj_regular(out);
            let d = u64_to_dec(contents.len() as u64);
            out.extend_from_slice(d.as_slice());
            if *executable {
                push_exec_true(out);
            }
            push_close_brace(out);
            proof {
                assert(out@ =~= old(out)@ + spec_node_json(*t));
            }
        },
        NarNode::Symlink { target } => {
            push_obj_symlink(out);
            escape_json_into(out, target.as_slice());
            push_quote_close(out);
            proof {
                assert(out@ =~= old(out)@ + spec_node_json(*t));
            }
        },
        NarNode::Directory { entries } => {
            push_obj_dir(out);
            let ghost header = old(out)@ + spec_obj_dir();
            let mut i: usize = 0;
            while i < entries.len()
                invariant
                    i <= entries@.len(),
                    *t == (NarNode::Directory { entries: *entries }),
                    out@ + spec_entries_json(*entries, i as int) == header + spec_entries_json(
                        *entries,
                        0,
                    ),
                decreases entries@.len() - i,
            {
                let ghost before = out@;
                if i > 0 {
                    push_comma(out);
                }
                push_quote(out);
                escape_json_into(out, entries[i].name.as_slice());
                push_quote_colon(out);
                proof {
                    broadcast use vstd::std_specs::vec::axiom_vec_index_decreases;
                    assert(decreases_to!(*t => t->Directory_entries));
                    assert(t->Directory_entries == *entries);
                    assert(decreases_to!(*entries => entries@[i as int]));
                }
                node_json_into(out, &entries[i].node);
                proof {
                    assert(out@ =~= before + ((if i > 0 {
                        spec_comma()
                    } else {
                        Seq::<u8>::empty()
                    }) + spec_quote() + spec_json_escape(entries@[i as int].name@)
                        + spec_quote_colon() + spec_node_json(entries@[i as int].node)));
                    assert(out@ + spec_entries_json(*entries, i + 1) =~= before
                        + spec_entries_json(*entries, i as int));
                }
                i = i + 1;
            }
            push_dir_close(out);
            proof {
                assert(spec_entries_json(*entries, entries@.len() as int) =~= Seq::<u8>::empty());
                assert(out@ =~= old(out)@ + spec_node_json(*t));
            }
        },
    }
}

/// Walks a tree and renders the listing JSON: version, then the root
/// entry.
pub fn get_nar_list(t: &NarNode) -> (r: Vec<u8>)
    ensures
        r@ == spec_nar_list_json(*t),
{
    let mut out: Vec<u8> = Vec::new();
    push_list_open(&mut out);
    node_json_into(&mut out, t);
    push_close_brace(&mut out);
    proof {
        assert(out@ =~= spec_nar_list_json(*t));
    }
    out
}

} // verus!
