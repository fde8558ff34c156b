//! The streaming archive serializer: emits the canonical filesystem
//! archive format, length-prefixed and 8-byte aligned, with directory
//! entries in byte-wise ascending order of their case-hack-stripped
//! names.

use vstd::prelude::*;

use crate::text::{spec_match_at, find_subslice};
use crate::wire::{encode_string_into, spec_framed, spec_pad};
use crate::CacheError;

verus! {

/// The query string of an archive URL.
pub struct NarRequest {
    pub hash: Option<String>,
}

/// The parsed parts in an archive URL.
pub struct PathParams {
    pub narhash: String,
    pub outhash: Option<String>,
}

/// One directory entry: the on-disk name and the node under it.
pub struct NarEntry {
    pub name: Vec<u8>,
    pub node: NarNode,
}

/// A filesystem node as the serializer sees it. All other on-disk
/// file types are fatal before a tree is built.
pub enum NarNode {
    Regular { executable: bool, contents: Vec<u8> },
    Symlink { target: Vec<u8> },
    Directory { entries: Vec<NarEntry> },
}

/// The case-hack marker: a name carrying it is emitted without the
/// marker and everything after it.
pub open spec fn spec_case_hack_marker() -> Seq<u8> {
    seq![126u8, 110u8, 105u8, 120u8, 126u8, 99u8, 97u8, 115u8, 101u8, 126u8, 104u8, 97u8, 99u8,
        107u8, 126u8]
}

fn case_hack_marker() -> (r: Vec<u8>)
    ensures
        r@ == spec_case_hack_marker(),
{
    let arr: [u8; 15] = [126, 110, 105, 120, 126, 99, 97, 115, 101, 126, 104, 97, 99, 107, 126];
    let v = vstd::slice::slice_to_vec(arr.as_slice());
    proof {
        assert(v@ =~= spec_case_hack_marker());
    }
    v
}

/// Index of the first marker occurrence at or after `i`, or the
/// length when none occurs.
pub open spec fn spec_cut(n: Seq<u8>, i: int) -> int
    decreases n.len() - i,
{
    if i < 0 || i + spec_case_hack_marker().len() > n.len() {
        n.len() as int
    } else if spec_match_at(n, spec_case_hack_marker(), i) {
        i
    } else {
        spec_cut(n, i + 1)
    }
}

/// A name with the case-hack marker and everything after it removed.
pub open spec fn spec_strip_case_hack(n: Seq<u8>) -> Seq<u8> {
    n.take(spec_cut(n, 0))
}

proof fn lemma_cut_from(n: Seq<u8>, i: int, p: int)
    requires
        0 <= i <= p,
        spec_match_at(n, spec_case_hack_marker(), p),
        forall|j: int| i <= j < p ==> !spec_match_at(n, spec_case_hack_marker(), j),
    ensures
        spec_cut(n, i) == p,
    decreases p - i,
{
    if i < p {
        lemma_cut_from(n, i + 1, p);
    }
}

proof fn lemma_cut_none(n: Seq<u8>, i: int)
    requires
        0 <= i,
        forall|j: int| i <= j ==> !spec_match_at(n, spec_case_hack_marker(), j),
    ensures
        spec_cut(n, i) == n.len(),
    decreases n.len() - i,
{
    if !(i + spec_case_hack_marker().len() > n.len()) {
        lemma_cut_none(n, i + 1);
    }
}

/// Removes the case-hack marker and everything after it from a name.
/// The physical on-disk name retains the marker; only the wire form
/// and the sort key lose it.
pub fn strip_case_hack_suffix(s: &[u8]) -> (r: Vec<u8>)
    ensures
        r@ == spec_strip_case_hack(s@),
{
    let marker = case_hack_marker();
    match find_subslice(s, marker.as_slice()) {
        Some(p) => {
            proof {
                lemma_cut_from(s@, 0, p as int);
            }
            let v = vstd::slice::slice_to_vec(vstd::slice::slice_subrange(s, 0, p));
            proof {
                assert(v@ =~= spec_strip_case_hack(s@));
            }
            v
        },
        None => {
            proof {
                lemma_cut_none(s@, 0);
            }
            let v = vstd::slice::slice_to_vec(s);
            proof {
                assert(v@ =~= spec_strip_case_hack(s@));
            }
            v
        },
    }
}

/// The serialization of one node: a parenthesised token list, every
/// token framed as a wire string.
pub open spec fn spec_nar_node(t: NarNode) -> Seq<u8>
    decreases t,
{
    match t {
        NarNode::Regular { executable, contents } => spec_framed(seq![40u8]) + spec_framed(
            seq![116u8, 121u8, 112u8, 101u8],
        ) + spec_framed(seq![114u8, 101u8, 103u8, 117u8, 108u8, 97u8, 114u8]) + (if executable {
            spec_framed(
                seq![101u8, 120u8, 101u8, 99u8, 117u8, 116u8, 97u8, 98u8, 108u8, 101u8],
            ) + spec_framed(Seq::<u8>::empty())
        } else {
            Seq::<u8>::empty()
        }) + spec_framed(seq![99u8, 111u8, 110u8, 116u8, 101u8, 110u8, 116u8, 115u8])
            + spec_framed(contents@) + spec_framed(seq![41u8]),
        NarNode::Symlink { target } => spec_framed(seq![40u8]) + spec_framed(
            seq![116u8, 121u8, 112u8, 101u8],
        ) + spec_framed(seq![115u8, 121u8, 109u8, 108u8, 105u8, 110u8, 107u8]) + spec_framed(
            seq![116u8, 97u8, 114u8, 103u8, 101u8, 116u8],
        ) + spec_framed(target@) + spec_framed(seq![41u8]),
        NarNode::Directory { entries } => spec_framed(seq![40u8]) + spec_framed(
            seq![116u8, 121u8, 112u8, 101u8],
        ) + spec_framed(
            seq![100u8, 105u8, 114u8, 101u8, 99u8, 116u8, 111u8, 114u8, 121u8],
        ) + spec_nar_entries(entries, 0) + spec_framed(seq![41u8]),
    }
}

/// The serialization of one directory entry:
/// `entry ( name <stripped-name> node <node> )`.
pub open spec fn spec_nar_entry(e: NarEntry) -> Seq<u8>
    decreases e,
{
    spec_framed(seq![101u8, 110u8, 116u8, 114u8, 121u8]) + spec_framed(seq![40u8]) + spec_framed(
        seq![110u8, 97u8, 109u8, 101u8],
    ) + spec_framed(spec_strip_case_hack(e.name@)) + spec_framed(
        seq![110u8, 111u8, 100u8, 101u8],
    ) + spec_nar_node(e.node) + spec_framed(seq![41u8])
}

/// The serializations of the entries from index `i` on.
pub open spec fn spec_nar_entries(es: Vec<NarEntry>, i: int) -> Seq<u8>
    decreases es, es@.len() - i,
{
    if i < 0 || i >= es@.len() {
        Seq::<u8>::empty()
    } else {
        spec_nar_entry(es@[i]) + spec_nar_entries(es, i + 1)
    }
}

/// The full archive for a tree: the magic token, then the root node.
pub open spec fn spec_nar(t: NarNode) -> Seq<u8> {
    spec_framed(
        seq![110u8, 105u8, 120u8, 45u8, 97u8, 114u8, 99u8, 104u8, 105u8, 118u8, 101u8, 45u8,
            49u8],
    ) + spec_nar_node(t)
}

fn push_tok(out: &mut Vec<u8>, tok: &[u8])
    ensures
        final(out)@ == old(out)@ + spec_framed(tok@),
{
    encode_string_into(out, tok);
}

/// Serializes one node into `out`.
#[verifier::rlimit(100)]
pub fn dump_node_into(out: &mut Vec<u8>, t: &NarNode)
    ensures
        final(out)@ == old(out)@ + spec_nar_node(*t),
    decreases *t,
{
    let open_arr: [u8; 1] = [40];
    let close_arr: [u8; 1] = [41];
    let type_arr: [u8; 4] = [116, 121, 112, 101];
    match t {
        NarNode::Regular { executable, contents } => {
            push_tok(out, open_arr.as_slice());
            push_tok(out, type_arr.as_slice());
            let regular_arr: [u8; 7] = [114, 101, 103, 117, 108, 97, 114];
            push_tok(out, regular_arr.as_slice());
            if *executable {
                let exec_arr: [u8; 10] = [101, 120, 101, 99, 117, 116, 97, 98, 108, 101];
                push_tok(out, exec_arr.as_slice());
                let empty_arr: [u8; 0] = [];
                push_tok(out, empty_arr.as_slice());
            }
            let contents_arr: [u8; 8] = [99, 111, 110, 116, 101, 110, 116, 115];
            push_tok(out, contents_arr.as_slice());
            push_tok(out, contents.as_slice());
            push_tok(out, close_arr.as_slice());
            proof {
                assert(open_arr@ =~= seq![40u8]);
                assert(close_arr@ =~= seq![41u8]);
                assert(type_arr@ =~= seq![116u8, 121u8, 112u8, 101u8]);
                assert(out@ =~= old(out)@ + spec_nar_node(*t));
            }
        },
        NarNode::Symlink { target } => {
            push_tok(out, open_arr.as_slice());
            push_tok(out, type_arr.as_slice());
            let symlink_arr: [u8; 7] = [115, 121, 109, 108, 105, 110, 107];
            push_tok(out, symlink_arr.as_slice());
            let target_arr: [u8; 6] = [116, 97, 114, 103, 101, 116];
            push_tok(out, target_arr.as_slice());
            push_tok(out, target.as_slice());
            push_tok(out, close_arr.as_slice());
            proof {
                assert(open_arr@ =~= seq![40u8]);
                assert(close_arr@ =~= seq![41u8]);
                assert(type_arr@ =~= seq![116u8, 121u8, 112u8, 101u8]);
                assert(out@ =~= old(out)@ + spec_nar_node(*t));
            }
        },
        NarNode::Directory { entries } => {
            push_tok(out, open_arr.as_slice());
            push_tok(out, type_arr.as_slice());
            let dir_arr: [u8; 9] = [100, 105, 114, 101, 99, 116, 111, 114, 121];
            push_tok(out, dir_arr.as_slice());
            proof {
                assert(open_arr@ =~= seq![40u8]);
                assert(type_arr@ =~= seq![116u8, 121u8, 112u8, 101u8]);
                assert(dir_arr@ =~= seq![100u8, 105u8, 114u8, 101u8, 99u8, 116u8, 111u8, 114u8,
                    121u8]);
            }
            let ghost header = old(out)@ + spec_framed(seq![40u8]) + spec_framed(
                seq![116u8, 121u8, 112u8, 101u8],
            ) + spec_framed(seq![100u8, 105u8, 114u8, 101u8, 99u8, 116u8, 111u8, 114u8, 121u8]);
            let mut i: usize = 0;
            while i < entries.len()
                invariant
                    i <= entries@.len(),
                    *t == (NarNode::Directory { entries: *entries }),
                    out@ + spec_nar_entries(*entries, i as int) == header + spec_nar_entries(
                        *entries,
                        0,
                    ),
                decreases entries@.len() - i,
            {
                let ghost out_before = out@;
                proof {
                    broadcast use vstd::std_specs::vec::axiom_vec_index_decreases;
                    assert(decreases_to!(*t => t->Directory_entries));
                    assert(t->Directory_entries == *entries);
                    assert(decreases_to!(*entries => entries@[i as int]));
                }
                dump_entry_into(out, &entries[i]);
                proof {
                    assert(out@ + spec_nar_entries(*entries, i + 1) =~= out_before
                        + spec_nar_entries(*entries, i as int));
                }
                i = i + 1;
            }
            push_tok(out, close_arr.as_slice());
            proof {
                assert(close_arr@ =~= seq![41u8]);
                assert(spec_nar_entries(*entries, entries@.len() as int) =~= Seq::<u8>::empty());
                assert(out@ =~= old(out)@ + spec_nar_node(*t));
            }
        },
    }
}

/// Serializes one directory entry into `out`.
pub fn dump_entry_into(out: &mut Vec<u8>, e: &NarEntry)
    ensures
        final(out)@ == old(out)@ + spec_nar_entry(*e),
    decreases *e,
{
    let entry_arr: [u8; 5] = [101, 110, 116, 114, 121];
    push_tok(out, entry_arr.as_slice());
    let open_arr: [u8; 1] = [40];
    push_tok(out, open_arr.as_slice());
    let name_arr: [u8; 4] = [110, 97, 109, 101];
    push_tok(out, name_arr.as_slice());
    let stripped = strip_case_hack_suffix(e.name.as_slice());
    push_tok(out, stripped.as_slice());
    let node_arr: [u8; 4] = [110, 111, 100, 101];
    push_tok(out, node_arr.as_slice());
    dump_node_into(out, &e.node);
    let close_arr: [u8; 1] = [41];
    push_tok(out, close_arr.as_slice());
    proof {
        assert(entry_arr@ =~= seq![101u8, 110u8, 116u8, 114u8, 121u8]);
        assert(open_arr@ =~= seq![40u8]);
        assert(name_arr@ =~= seq![110u8, 97u8, 109u8, 101u8]);
        assert(node_arr@ =~= seq![110u8, 111u8, 100u8, 101u8]);
        assert(close_arr@ =~= seq![41u8]);
        assert(out@ =~= old(out)@ + spec_nar_entry(*e));
    }
}

/// Serializes a whole tree: the archive magic, then the root node.
/// The output is a function of the tree alone: two invocations on the
/// same tree produce byte-identical archives.
pub fn dump_path(t: &NarNode) -> (r: Vec<u8>)
    ensures
        r@ == spec_nar(*t),
{
    let mut out: Vec<u8> = Vec::new();
    let magic_arr: [u8; 13] = [110, 105, 120, 45, 97, 114, 99, 104, 105, 118, 101, 45, 49];
    push_tok(&mut out, magic_arr.as_slice());
    dump_node_into(&mut out, t);
    proof {
        assert(magic_arr@ =~= seq![110u8, 105u8, 120u8, 45u8, 97u8, 114u8, 99u8, 104u8, 105u8,
            118u8, 101u8, 45u8, 49u8]);
        assert(out@ =~= spec_nar(*t));
    }
    out
}

/// Picks the output hash a request names: the query parameter wins
/// over the one embedded in a legacy URL.
pub fn select_outhash<'a>(query_hash: Option<&'a Vec<u8>>, path_outhash: Option<&'a Vec<u8>>) -> (r:
    Option<&'a Vec<u8>>)
    ensures
        match (query_hash, path_outhash) {
            (Some(q), _) => r == Some(q),
            (None, Some(p)) => r == Some(p),
            (None, None) => r is None,
        },
{
    match query_hash {
        Some(q) => Some(q),
        None => path_outhash,
    }
}

/// Checks the archive hash a request names against the daemon's
/// record: the record's hexadecimal hash, re-encoded in base-32, must
/// equal the requested one. A record hash that is not hexadecimal,
/// and a disagreement between the two hashes, are both invariant
/// violations: no archive bytes may be served under a non-matching
/// name.
pub fn check_nar_hash(narhash: &[u8], info_hash: &[u8]) -> (r: Result<(), CacheError>)
    ensures
        match r {
            Ok(()) => crate::base32::spec_convert_ok(info_hash@) && narhash@
                == crate::base32::spec_nix32(crate::base32::spec_hex_decode(info_hash@)),
            Err(e) => {
                &&& e == CacheError::Internal
                &&& !(crate::base32::spec_convert_ok(info_hash@) && narhash@
                    == crate::base32::spec_nix32(crate::base32::spec_hex_decode(info_hash@)))
            },
        },
{
    let nix32 = match crate::base32::convert_base16_to_nix32(info_hash) {
        Ok(v) => v,
        Err(_) => {
            return Err(CacheError::Internal);
        },
    };
    if crate::text::bytes_eq(narhash, nix32.as_slice()) {
        Ok(())
    } else {
        Err(CacheError::Internal)
    }
}


/// One pending piece of serialization work on the walker's stack.
pub enum WalkItem {
    /// Bytes ready to emit.
    Tok(Vec<u8>),
    /// A node still to serialize.
    Node(NarNode),
    /// The remaining entries of an open directory.
    Entries(Vec<NarEntry>),
}

/// The bytes one work item stands for.
pub open spec fn spec_walk_item_out(w: WalkItem) -> Seq<u8> {
    match w {
        WalkItem::Tok(b) => b@,
        WalkItem::Node(n) => spec_nar_node(n),
        WalkItem::Entries(es) => spec_nar_entries(es, 0),
    }
}

/// The bytes a whole stack stands for, top of the stack first.
pub open spec fn spec_stack_out(st: Seq<WalkItem>) -> Seq<u8>
    decreases st.len(),
{
    if st.len() == 0 {
        Seq::empty()
    } else {
        spec_walk_item_out(st.last()) + spec_stack_out(st.drop_last())
    }
}

proof fn lemma_stack_push(st: Seq<WalkItem>, w: WalkItem)
    ensures
        spec_stack_out(st.push(w)) == spec_walk_item_out(w) + spec_stack_out(st),
{
    assert(st.push(w).drop_last() =~= st);
    assert(st.push(w).last() == w);
}

/// The archive walker of the streaming serializer: an explicit stack
/// of directory frames and pending tokens in place of call-stack
/// recursion. Each `step` emits one bounded chunk; the chunks
/// concatenate, in order, to exactly the archive of the tree the
/// walker was started on.
pub struct NarWalker {
    pub stack: Vec<WalkItem>,
}

impl NarWalker {
    /// What the walker still owes: the bytes of its remaining work.
    pub open spec fn spec_pending(&self) -> Seq<u8> {
        spec_stack_out(self.stack@)
    }

    /// Starts a walk owing exactly the archive of `t`.
    pub fn new(t: NarNode) -> (r: Self)
        ensures
            r.spec_pending() == spec_nar(t),
    {
        let magic_arr: [u8; 13] = [110, 105, 120, 45, 97, 114, 99, 104, 105, 118, 101, 45, 49];
        let mut magic: Vec<u8> = Vec::new();
        push_tok(&mut magic, magic_arr.as_slice());
        let mut stack: Vec<WalkItem> = Vec::new();
        stack.push(WalkItem::Node(t));
        stack.push(WalkItem::Tok(magic));
        let r = NarWalker { stack };
        proof {
            assert(magic_arr@ =~= seq![110u8, 105u8, 120u8, 45u8, 97u8, 114u8, 99u8, 104u8,
                105u8, 118u8, 101u8, 45u8, 49u8]);
            let st0 = Seq::<WalkItem>::empty();
            assert(spec_stack_out(st0) == Seq::<u8>::empty());
            lemma_stack_push(st0, WalkItem::Node(t));
            lemma_stack_push(st0.push(WalkItem::Node(t)), WalkItem::Tok(magic));
            assert(r.stack@ =~= st0.push(WalkItem::Node(t)).push(WalkItem::Tok(magic)));
            assert(r.spec_pending() =~= spec_nar(t));
        }
        r
    }

    /// Emits the next chunk, or nothing once the walk is done: what
    /// was owed before is the chunk followed by what is owed after.
    #[verifier::rlimit(100)]
    pub fn step(&mut self) -> (r: Option<Vec<u8>>)
        ensures
            match r {
                Some(chunk) => old(self).spec_pending() == chunk@ + final(self).spec_pending(),
                None => old(self).spec_pending() == Seq::<u8>::empty()
                    && final(self).spec_pending() == Seq::<u8>::empty(),
            },
    {
        let top = match self.stack.pop() {
            Some(w) => w,
            None => {
                return None;
            },
        };
        proof {
            assert(old(self).stack@.drop_last() =~= self.stack@);
            assert(old(self).spec_pending() == spec_walk_item_out(old(self).stack@.last())
                + spec_stack_out(self.stack@));
            assert(old(self).stack@.last() == top);
        }
        match top {
            WalkItem::Tok(b) => Some(b),
            WalkItem::Node(n) => {
                match n {
                    NarNode::Regular { executable, contents } => {
                        let mut chunk: Vec<u8> = Vec::new();
                        dump_node_into(
                            &mut chunk,
                            &(NarNode::Regular { executable, contents }),
                        );
                        Some(chunk)
                    },
                    NarNode::Symlink { target } => {
                        let mut chunk: Vec<u8> = Vec::new();
                        dump_node_into(&mut chunk, &(NarNode::Symlink { target }));
                        Some(chunk)
                    },
                    NarNode::Directory { entries } => {
                        let ghost entries0 = entries;
                        let mut chunk: Vec<u8> = Vec::new();
                        let open_arr: [u8; 1] = [40];
                        let type_arr: [u8; 4] = [116, 121, 112, 101];
                        let dir_arr: [u8; 9] = [100, 105, 114, 101, 99, 116, 111, 114, 121];
                        push_tok(&mut chunk, open_arr.as_slice());
                        push_tok(&mut chunk, type_arr.as_slice());
                        push_tok(&mut chunk, dir_arr.as_slice());
                        let close_arr: [u8; 1] = [41];
                        let mut close: Vec<u8> = Vec::new();
                        push_tok(&mut close, close_arr.as_slice());
                        self.stack.push(WalkItem::Tok(close));
                        self.stack.push(WalkItem::Entries(entries));
                        proof {
                            assert(open_arr@ =~= seq![40u8]);
                            assert(type_arr@ =~= seq![116u8, 121u8, 112u8, 101u8]);
                            assert(dir_arr@ =~= seq![100u8, 105u8, 114u8, 101u8, 99u8, 116u8,
                                111u8, 114u8, 121u8]);
                            assert(close_arr@ =~= seq![41u8]);
                            let base = old(self).stack@.drop_last();
                            lemma_stack_push(base, WalkItem::Tok(close));
                            lemma_stack_push(
                                base.push(WalkItem::Tok(close)),
                                WalkItem::Entries(entries),
                            );
                            assert(self.stack@ =~= base.push(WalkItem::Tok(close)).push(
                                WalkItem::Entries(entries),
                            ));
                            assert(spec_nar_node(NarNode::Directory { entries: entries0 })
                                == chunk@ + spec_nar_entries(entries0, 0) + spec_framed(
                                seq![41u8],
                            ));
                            assert(old(self).spec_pending() =~= chunk@
                                + final(self).spec_pending());
                        }
                        Some(chunk)
                    },
                }
            },
            WalkItem::Entries(es) => {
                let mut es = es;
                let ghost es0 = es;
                if es.len() == 0 {
                    let chunk: Vec<u8> = Vec::new();
                    proof {
                        assert(spec_nar_entries(es0, 0) =~= Seq::<u8>::empty());
                        assert(old(self).spec_pending() =~= chunk@ + final(self).spec_pending());
                    }
                    return Some(chunk);
                }
                let e = es.remove(0);
                let mut chunk: Vec<u8> = Vec::new();
                let entry_arr: [u8; 5] = [101, 110, 116, 114, 121];
                push_tok(&mut chunk, entry_arr.as_slice());
                let open_arr: [u8; 1] = [40];
                push_tok(&mut chunk, open_arr.as_slice());
                let name_arr: [u8; 4] = [110, 97, 109, 101];
                push_tok(&mut chunk, name_arr.as_slice());
                let stripped = strip_case_hack_suffix(e.name.as_slice());
                push_tok(&mut chunk, stripped.as_slice());
                let node_arr: [u8; 4] = [110, 111, 100, 101];
                push_tok(&mut chunk, node_arr.as_slice());
                let close_arr: [u8; 1] = [41];
                let mut close: Vec<u8> = Vec::new();
                push_tok(&mut close, close_arr.as_slice());
                self.stack.push(WalkItem::Entries(es));
                self.stack.push(WalkItem::Tok(close));
                self.stack.push(WalkItem::Node(e.node));
                proof {
                    assert(entry_arr@ =~= seq![101u8, 110u8, 116u8, 114u8, 121u8]);
                    assert(open_arr@ =~= seq![40u8]);
                    assert(name_arr@ =~= seq![110u8, 97u8, 109u8, 101u8]);
                    assert(node_arr@ =~= seq![110u8, 111u8, 100u8, 101u8]);
                    assert(close_arr@ =~= seq![41u8]);
                    assert(es@ =~= es0@.skip(1));
                    lemma_entries_shift(es, es0, 0);
                    assert(spec_nar_entries(es0, 0) == spec_nar_entry(es0@[0]) + spec_nar_entries(
                        es0,
                        1,
                    ));
                    let base = old(self).stack@.drop_last();
                    lemma_stack_push(base, WalkItem::Entries(es));
                    lemma_stack_push(base.push(WalkItem::Entries(es)), WalkItem::Tok(close));
                    lemma_stack_push(
                        base.push(WalkItem::Entries(es)).push(WalkItem::Tok(close)),
                        WalkItem::Node(e.node),
                    );
                    assert(self.stack@ =~= base.push(WalkItem::Entries(es)).push(
                        WalkItem::Tok(close),
                    ).push(WalkItem::Node(e.node)));
                    assert(old(self).spec_pending() =~= chunk@ + final(self).spec_pending());
                }
                Some(chunk)
            },
        }
    }
}

/// Removing a directory's first entry shifts the serialization
/// indices of the rest down by one.
proof fn lemma_entries_shift(es2: Vec<NarEntry>, es1: Vec<NarEntry>, j: int)
    requires
        0 <= j,
        es1@.len() >= 1,
        es2@ == es1@.skip(1),
    ensures
        spec_nar_entries(es2, j) == spec_nar_entries(es1, j + 1),
    decreases es1@.len() - j,
{
    assert(es2@.len() == es1@.len() - 1);
    if j < es2@.len() {
        assert(es2@[j] == es1@.skip(1)[j]);
        assert(es1@.skip(1)[j] == es1@[j + 1]);
        lemma_entries_shift(es2, es1, j + 1);
    }
}

/// Law: archive determinism. The serialized form is a function of the
/// tree alone, so two trees that are equal serialize to the same
/// bytes.
pub proof fn lemma_archive_deterministic(t1: NarNode, t2: NarNode)
    requires
        t1 == t2,
    ensures
        spec_nar(t1) == spec_nar(t2),
{
}

/// Byte-wise lexicographic order on byte strings.
pub open spec fn spec_lex_lt(a: Seq<u8>, b: Seq<u8>) -> bool
    decreases b.len(),
{
    if b.len() == 0 {
        false
    } else if a.len() == 0 {
        true
    } else {
        a[0] < b[0] || (a[0] == b[0] && spec_lex_lt(a.skip(1), b.skip(1)))
    }
}

/// Exactly one of `a < b`, `a == b`, `b < a` holds.
pub proof fn lemma_lex_trichotomy(a: Seq<u8>, b: Seq<u8>)
    ensures
        spec_lex_lt(a, b) || spec_lex_lt(b, a) || a == b,
        spec_lex_lt(a, b) ==> !spec_lex_lt(b, a) && a != b,
        spec_lex_lt(b, a) ==> !spec_lex_lt(a, b) && a != b,
    decreases b.len(),
{
    if b.len() == 0 || a.len() == 0 {
        if a.len() == 0 && b.len() == 0 {
            assert(a =~= b);
        }
    } else {
        lemma_lex_trichotomy(a.skip(1), b.skip(1));
        if a[0] == b[0] && a.skip(1) == b.skip(1) {
            assert forall|k: int| 0 <= k < a.len() implies a[k] == b[k] by {
                if k > 0 {
                    assert(a[k] == a.skip(1)[k - 1]);
                    assert(b[k] == b.skip(1)[k - 1]);
                }
            }
            assert(a =~= b);
        }
    }
}

/// Three-way byte-wise comparison: 0 when `a` sorts first, 1 when
/// equal, 2 when `b` sorts first.
pub fn lex_cmp(a: &[u8], b: &[u8]) -> (r: u8)
    ensures
        r == 0 ==> spec_lex_lt(a@, b@),
        r == 1 ==> a@ == b@,
        r == 2 ==> spec_lex_lt(b@, a@),
        r == 0 || r == 1 || r == 2,
    decreases b@.len(),
{
    if b.len() == 0 {
        if a.len() == 0 {
            proof {
                assert(a@ =~= b@);
            }
            1
        } else {
            2
        }
    } else if a.len() == 0 {
        0
    } else if a[0] < b[0] {
        0
    } else if a[0] > b[0] {
        2
    } else {
        let ra = vstd::slice::slice_subrange(a, 1, a.len());
        let rb = vstd::slice::slice_subrange(b, 1, b.len());
        proof {
            assert(ra@ =~= a@.skip(1));
            assert(rb@ =~= b@.skip(1));
        }
        let r = lex_cmp(ra, rb);
        proof {
            if r == 1 {
                assert forall|k: int| 0 <= k < a@.len() implies a@[k] == b@[k] by {
                    if k > 0 {
                        assert(a@[k] == a@.skip(1)[k - 1]);
                        assert(b@[k] == b@.skip(1)[k - 1]);
                    }
                }
                assert(a@ =~= b@);
            }
        }
        r
    }
}

/// Entries sorted in strictly ascending byte-wise order of their
/// stripped names: the invariant the serializer's ordering rule asks
/// of every directory.
pub open spec fn spec_entries_sorted(es: Seq<NarEntry>) -> bool {
    forall|i: int, j: int|
        0 <= i < j < es.len() ==> spec_lex_lt(
            spec_strip_case_hack(#[trigger] es[i].name@),
            spec_strip_case_hack(#[trigger] es[j].name@),
        )
}

/// Inserts one entry into a sorted entry list, keyed by the stripped
/// name; an entry with the same key is replaced, as a fresh sibling
/// read from disk supersedes the one already seen.
pub fn insert_entry(entries: &mut Vec<NarEntry>, e: NarEntry)
    requires
        spec_entries_sorted(old(entries)@),
    ensures
        spec_entries_sorted(final(entries)@),
        exists|i: int| 0 <= i < final(entries)@.len() && final(entries)@[i] == e,
        forall|i: int|
            0 <= i < final(entries)@.len() ==> final(entries)@[i] == e || (exists|j: int|
                0 <= j < old(entries)@.len() && final(entries)@[i] == old(entries)@[j]),
        forall|j: int|
            0 <= j < old(entries)@.len() ==> exists|i: int|
                0 <= i < final(entries)@.len() && spec_strip_case_hack(
                    final(entries)@[i].name@,
                ) == spec_strip_case_hack(#[trigger] old(entries)@[j].name@),
{
    let key = strip_case_hack_suffix(e.name.as_slice());
    let mut p: usize = 0;
    while p < entries.len()
        invariant
            p <= entries@.len(),
            key@ == spec_strip_case_hack(e.name@),
            spec_entries_sorted(entries@),
            entries@ == old(entries)@,
            forall|k: int|
                0 <= k < p ==> spec_lex_lt(
                    spec_strip_case_hack(#[trigger] entries@[k].name@),
                    key@,
                ),
        decreases entries@.len() - p,
    {
        let pk = strip_case_hack_suffix(entries[p].name.as_slice());
        let c = lex_cmp(pk.as_slice(), key.as_slice());
        if c == 1 {
            // Same stripped name: the new sibling replaces the old.
            entries.remove(p);
            entries.insert(p, e);
            proof {
                let es = entries@;
                let olds = old(entries)@;
                assert(es[p as int] == e);
                assert forall|i: int, j: int|
                    0 <= i < j < es.len() implies spec_lex_lt(
                    spec_strip_case_hack(#[trigger] es[i].name@),
                    spec_strip_case_hack(#[trigger] es[j].name@),
                ) by {
                    if i != p && j != p {
                        assert(es[i] == olds[i]);
                        assert(es[j] == olds[j]);
                    } else if i == p {
                        assert(es[j] == olds[j]);
                        assert(spec_lex_lt(
                            spec_strip_case_hack(olds[p as int].name@),
                            spec_strip_case_hack(olds[j].name@),
                        ));
                    } else {
                        assert(es[i] == olds[i]);
                        assert(spec_lex_lt(
                            spec_strip_case_hack(olds[i].name@),
                            spec_strip_case_hack(olds[p as int].name@),
                        ));
                    }
                }
                assert forall|j: int|
                    0 <= j < olds.len() implies exists|i: int|
                    0 <= i < es.len() && spec_strip_case_hack(es[i].name@)
                        == spec_strip_case_hack(#[trigger] olds[j].name@) by {
                    if j == p {
                        assert(spec_strip_case_hack(es[p as int].name@) == spec_strip_case_hack(
                            olds[j].name@,
                        ));
                    } else {
                        assert(es[j] == olds[j]);
                        assert(spec_strip_case_hack(es[j].name@) == spec_strip_case_hack(
                            olds[j].name@,
                        ));
                    }
                }
            }
            return ;
        }
        if c == 2 {
            // The entry at `p` sorts after the new key: insert here.
            entries.insert(p, e);
            proof {
                let es = entries@;
                let olds = old(entries)@;
                assert(es[p as int] == e);
                assert forall|i: int, j: int|
                    0 <= i < j < es.len() implies spec_lex_lt(
                    spec_strip_case_hack(#[trigger] es[i].name@),
                    spec_strip_case_hack(#[trigger] es[j].name@),
                ) by {
                    lemma_lex_trichotomy(
                        spec_strip_case_hack(es[i].name@),
                        spec_strip_case_hack(es[j].name@),
                    );
                    if i < p && j < p {
                        assert(es[i] == olds[i] && es[j] == olds[j]);
                    } else if i < p && j == p {
                        assert(es[i] == olds[i]);
                    } else if i < p && j > p {
                        assert(es[i] == olds[i] && es[j] == olds[j - 1]);
                    } else if i == p {
                        assert(es[j] == olds[j - 1]);
                        if j - 1 > p {
                            assert(spec_lex_lt(
                                spec_strip_case_hack(olds[p as int].name@),
                                spec_strip_case_hack(olds[j - 1].name@),
                            ));
                            lemma_lex_transitive(
                                key@,
                                spec_strip_case_hack(olds[p as int].name@),
                                spec_strip_case_hack(olds[j - 1].name@),
                            );
                        }
                    } else {
                        assert(es[i] == olds[i - 1] && es[j] == olds[j - 1]);
                    }
                }
                assert forall|j: int|
                    0 <= j < olds.len() implies exists|i: int|
                    0 <= i < es.len() && spec_strip_case_hack(es[i].name@)
                        == spec_strip_case_hack(#[trigger] olds[j].name@) by {
                    if j < p {
                        assert(es[j] == olds[j]);
                        assert(spec_strip_case_hack(es[j].name@) == spec_strip_case_hack(
                            olds[j].name@,
                        ));
                    } else {
                        assert(es[j + 1] == olds[j]);
                        assert(spec_strip_case_hack(es[j + 1].name@) == spec_strip_case_hack(
                            olds[j].name@,
                        ));
                    }
                }
            }
            return ;
        }
        p = p + 1;
    }
    entries.push(e);
    proof {
        let es = entries@;
        let olds = old(entries)@;
        assert(es[es.len() - 1] == e);
        assert forall|i: int, j: int|
            0 <= i < j < es.len() implies spec_lex_lt(
            spec_strip_case_hack(#[trigger] es[i].name@),
            spec_strip_case_hack(#[trigger] es[j].name@),
        ) by {
            if j < es.len() - 1 {
                assert(es[i] == olds[i] && es[j] == olds[j]);
            } else {
                assert(es[i] == olds[i]);
            }
        }
        assert forall|j: int|
            0 <= j < olds.len() implies exists|i: int|
            0 <= i < es.len() && spec_strip_case_hack(es[i].name@) == spec_strip_case_hack(
                #[trigger] olds[j].name@,
            ) by {
            assert(es[j] == olds[j]);
            assert(spec_strip_case_hack(es[j].name@) == spec_strip_case_hack(olds[j].name@));
        }
    }
}

/// Lexicographic order is transitive.
pub proof fn lemma_lex_transitive(a: Seq<u8>, b: Seq<u8>, c: Seq<u8>)
    requires
        spec_lex_lt(a, b),
        spec_lex_lt(b, c),
    ensures
        spec_lex_lt(a, c),
    decreases c.len(),
{
    if b.len() == 0 || a.len() == 0 || c.len() == 0 {
    } else {
        if a[0] == b[0] && b[0] == c[0] {
            lemma_lex_transitive(a.skip(1), b.skip(1), c.skip(1));
        }
    }
}

/// Two trees of the same shape whose directory entry names agree
/// after case-hack stripping, with equal contents and targets.
pub open spec fn spec_nar_similar(a: NarNode, b: NarNode) -> bool
    decreases a,
{
    match (a, b) {
        (
            NarNode::Regular { executable: xa, contents: ca },
            NarNode::Regular { executable: xb, contents: cb },
        ) => xa == xb && ca@ == cb@,
        (NarNode::Symlink { target: ta }, NarNode::Symlink { target: tb }) => ta@ == tb@,
        (NarNode::Directory { entries: ea }, NarNode::Directory { entries: eb }) => ea@.len()
            == eb@.len() && spec_nar_similar_entries(ea, eb, 0),
        _ => false,
    }
}

/// Entry-wise similarity from index `i` on.
pub open spec fn spec_nar_similar_entries(ea: Vec<NarEntry>, eb: Vec<NarEntry>, i: int) -> bool
    decreases ea, ea@.len() - i,
{
    if i < 0 || i >= ea@.len() || i >= eb@.len() {
        true
    } else {
        spec_strip_case_hack(ea@[i].name@) == spec_strip_case_hack(eb@[i].name@)
            && spec_nar_similar(ea@[i].node, eb@[i].node) && spec_nar_similar_entries(
            ea,
            eb,
            i + 1,
        )
    }
}

/// Law: case-hack transparency. Trees identical except for the
/// presence of the marker suffix in names produce the same archive
/// stream.
pub proof fn lemma_case_hack_transparent(a: NarNode, b: NarNode)
    requires
        spec_nar_similar(a, b),
    ensures
        spec_nar(a) == spec_nar(b),
    decreases a,
{
    lemma_case_hack_node(a, b);
}

proof fn lemma_case_hack_node(a: NarNode, b: NarNode)
    requires
        spec_nar_similar(a, b),
    ensures
        spec_nar_node(a) == spec_nar_node(b),
    decreases a,
{
    match (a, b) {
        (
            NarNode::Regular { executable: xa, contents: ca },
            NarNode::Regular { executable: xb, contents: cb },
        ) => {},
        (NarNode::Symlink { target: ta }, NarNode::Symlink { target: tb }) => {},
        (NarNode::Directory { entries: ea }, NarNode::Directory { entries: eb }) => {
            lemma_case_hack_entries(ea, eb, 0);
        },
        _ => {},
    }
}

proof fn lemma_case_hack_entries(ea: Vec<NarEntry>, eb: Vec<NarEntry>, i: int)
    requires
        ea@.len() == eb@.len(),
        spec_nar_similar_entries(ea, eb, i),
    ensures
        spec_nar_entries(ea, i) == spec_nar_entries(eb, i),
    decreases ea, ea@.len() - i,
{
    if 0 <= i < ea@.len() {
        assert(spec_strip_case_hack(ea@[i].name@) == spec_strip_case_hack(eb@[i].name@));
        assert(spec_nar_similar(ea@[i].node, eb@[i].node));
        lemma_case_hack_node(ea@[i].node, eb@[i].node);
        lemma_case_hack_entries(ea, eb, i + 1);
        assert(spec_nar_entry(ea@[i]) == spec_nar_entry(eb@[i]));
    } else {
        assert(spec_nar_entries(ea, i) == Seq::<u8>::empty());
        assert(spec_nar_entries(eb, i) == Seq::<u8>::empty());
    }
}

/// Size discipline of one file dump: tracks how many content bytes
/// are still owed against the size recorded when the walk saw the
/// file.
pub struct ContentsDump {
    pub expected: u64,
    pub left: u64,
}

impl ContentsDump {
    /// Begins a dump that owes exactly the recorded size.
    pub fn new(expected: u64) -> (r: Self)
        ensures
            r.expected == expected,
            r.left == expected,
    {
        ContentsDump { expected, left: expected }
    }

    /// Accounts for a chunk of `n` bytes read from the file. A read
    /// past the recorded size means the file grew during the walk:
    /// fatal.
    pub fn feed(&mut self, n: u64) -> (r: Result<(), CacheError>)
        requires
            n > 0,
        ensures
            match r {
                Ok(()) => {
                    &&& n <= old(self).left
                    &&& final(self).left == old(self).left - n
                    &&& final(self).expected == old(self).expected
                },
                Err(e) => {
                    &&& n > old(self).left
                    &&& e == CacheError::IoError
                    &&& *final(self) == *old(self)
                },
            },
    {
        if n > self.left {
            return Err(CacheError::IoError);
        }
        self.left = self.left - n;
        Ok(())
    }

    /// Ends the dump at end of file. A short file is fatal; otherwise
    /// the number of zero padding bytes still to emit is returned.
    pub fn finish(&self) -> (r: Result<usize, CacheError>)
        ensures
            match r {
                Ok(p) => self.left == 0 && p == spec_pad(self.expected as int),
                Err(e) => self.left != 0 && e == CacheError::IoError,
            },
    {
        if self.left != 0 {
            return Err(CacheError::IoError);
        }
        Ok(crate::wire::alignment(self.expected))
    }
}

} // verus!
