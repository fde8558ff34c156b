//! Build-log resolution: where the log of a derivation lives under
//! the store's log tree, and how it is served to a client depending
//! on the content encodings it accepts.

use vstd::prelude::*;

use crate::narinfo::spec_file_name;
use crate::narinfo::extract_filename;
use crate::text::{
    contains_subslice, lemma_after_last_range, rfind_byte, spec_after_last, spec_match_at,
};

verus! {

/// The hash part a log route queries: at most the first 32 bytes of
/// the derivation name given in the URL.
pub open spec fn spec_drv_hash_part(drv: Seq<u8>) -> Seq<u8> {
    if drv.len() > 32 {
        drv.take(32)
    } else {
        drv
    }
}

/// Cuts the derivation name down to its hash part.
pub fn query_drv_path(drv: &[u8]) -> (r: Vec<u8>)
    ensures
        r@ == spec_drv_hash_part(drv@),
{
    if drv.len() > 32 {
        let v = vstd::slice::slice_to_vec(vstd::slice::slice_subrange(drv, 0, 32));
        proof {
            assert(v@ =~= spec_drv_hash_part(drv@));
        }
        v
    } else {
        vstd::slice::slice_to_vec(drv)
    }
}

/// The length gate on a hash part: only a 32-character hash may be
/// resolved against the store; anything else is a malformed request.
pub fn nixhash_precheck(hash: &[u8]) -> (r: Result<(), crate::CacheError>)
    ensures
        match r {
            Ok(()) => hash@.len() == 32,
            Err(e) => hash@.len() != 32 && e == crate::CacheError::BadRequest,
        },
{
    if hash.len() == 32 {
        Ok(())
    } else {
        Err(crate::CacheError::BadRequest)
    }
}

/// The parent of a path: everything before its last component, the
/// root and the empty path having none.
pub open spec fn spec_parent(p: Seq<u8>) -> Option<Seq<u8>> {
    if p.len() == 0 || p == seq![47u8] {
        None
    } else if spec_after_last(p, 47u8) > 0 {
        Some(p.take(spec_after_last(p, 47u8) - 1))
    } else {
        Some(Seq::empty())
    }
}

/// The log directory infix between the store's parent and the split
/// derivation name.
pub open spec fn spec_log_infix() -> Seq<u8> {
    seq![47u8, 118u8, 97u8, 114u8, 47u8, 108u8, 111u8, 103u8, 47u8, 110u8, 105u8, 120u8, 47u8,
        100u8, 114u8, 118u8, 115u8, 47u8]
}

/// Where the plain build log of a derivation lives:
/// `<store-parent>/var/log/nix/drvs/<name[0:2]>/<name[2:]>`.
pub open spec fn spec_build_log_path(store: Seq<u8>, drv_path: Seq<u8>) -> Option<Seq<u8>> {
    match spec_file_name(drv_path) {
        Some(name) => {
            if name.len() >= 2 {
                match spec_parent(store) {
                    Some(par) => Some(
                        par + spec_log_infix() + name.take(2) + seq![47u8] + name.skip(2),
                    ),
                    None => None,
                }
            } else {
                None
            }
        },
        None => None,
    }
}

/// The compressed sibling of a log path: the extension after the last
/// dot of its last component, when one follows its first byte, is
/// replaced by `drv.bz2`; otherwise `.drv.bz2` is appended.
pub open spec fn spec_bz2_sibling(p: Seq<u8>) -> Seq<u8> {
    let c = spec_after_last(p, 47u8);
    let name = p.skip(c);
    let d = spec_after_last(name, 46u8);
    (if d > 1 {
        p.take(c + d - 1)
    } else {
        p
    }) + seq![46u8, 100u8, 114u8, 118u8, 46u8, 98u8, 122u8, 50u8]
}

fn push_log_infix(out: &mut Vec<u8>)
    ensures
        final(out)@ == old(out)@ + spec_log_infix(),
{
    let l: [u8; 18] = [47, 118, 97, 114, 47, 108, 111, 103, 47, 110, 105, 120, 47, 100, 114, 118,
        115, 47];
    out.extend_from_slice(l.as_slice());
    proof {
        assert(l@ =~= spec_log_infix());
        assert(out@ =~= old(out)@ + spec_log_infix());
    }
}

/// The parent of a path, when it has one.
pub fn parent_path(p: &[u8]) -> (r: Option<Vec<u8>>)
    ensures
        match r {
            Some(v) => spec_parent(p@) == Some(v@),
            None => spec_parent(p@) is None,
        },
{
    if p.len() == 0 {
        return None;
    }
    if p.len() == 1 && p[0] == 47 {
        proof {
            assert(p@ =~= seq![47u8]);
        }
        return None;
    }
    proof {
        if p@ == seq![47u8] {
            assert(p@.len() == 1 && p@[0] == 47u8);
            assert(false);
        }
    }
    match rfind_byte(p, 47) {
        Some(i) => {
            proof {
                lemma_after_last_range(p@, 47u8, i + 1);
            }
            let v = vstd::slice::slice_to_vec(vstd::slice::slice_subrange(p, 0, i));
            proof {
                assert(v@ =~= p@.take(i as int));
            }
            Some(v)
        },
        None => {
            proof {
                lemma_after_last_range(p@, 47u8, 0);
            }
            let v: Vec<u8> = Vec::new();
            proof {
                assert(v@ =~= Seq::<u8>::empty());
            }
            Some(v)
        },
    }
}

/// Computes the two candidate log locations for a derivation: the
/// plain file, and its bzip2-compressed sibling. The unverified rim
/// checks which of the two exists on disk.
pub fn get_build_log(store: &[u8], drv_path: &[u8]) -> (r: Option<(Vec<u8>, Vec<u8>)>)
    ensures
        match r {
            Some(pair) => {
                &&& spec_build_log_path(store@, drv_path@) == Some(pair.0@)
                &&& pair.1@ == spec_bz2_sibling(pair.0@)
            },
            None => spec_build_log_path(store@, drv_path@) is None,
        },
{
    let name = match extract_filename(drv_path) {
        Some(n) => n,
        None => {
            return None;
        },
    };
    if name.len() < 2 {
        return None;
    }
    let par = match parent_path(store) {
        Some(p) => p,
        None => {
            return None;
        },
    };
    let mut plain: Vec<u8> = Vec::new();
    plain.extend_from_slice(par.as_slice());
    push_log_infix(&mut plain);
    plain.extend_from_slice(vstd::slice::slice_subrange(name.as_slice(), 0, 2));
    plain.push(47);
    plain.extend_from_slice(
        vstd::slice::slice_subrange(name.as_slice(), 2, name.len()),
    );
    proof {
        assert(name@.take(2) =~= name@.subrange(0, 2));
        assert(name@.skip(2) =~= name@.subrange(2, name@.len() as int));
        assert(plain@ =~= par@ + spec_log_infix() + name@.take(2) + seq![47u8] + name@.skip(2));
    }
    let compressed = bz2_sibling(plain.as_slice());
    Some((plain, compressed))
}

/// Forms the compressed sibling of a log path.
pub fn bz2_sibling(p: &[u8]) -> (r: Vec<u8>)
    ensures
        r@ == spec_bz2_sibling(p@),
{
    let plen = p.len();
    let c: usize = match rfind_byte(p, 47) {
        Some(i) => {
            proof {
                assert(i < plen);
                lemma_after_last_range(p@, 47u8, i + 1);
            }
            i + 1
        },
        None => {
            proof {
                lemma_after_last_range(p@, 47u8, 0);
            }
            0
        },
    };
    let name = vstd::slice::slice_subrange(p, c, p.len());
    proof {
        assert(name@ =~= p@.skip(c as int));
    }
    let d: usize = match rfind_byte(name, 46) {
        Some(i) => {
            proof {
                lemma_after_last_range(name@, 46u8, i + 1);
            }
            i + 1
        },
        None => {
            proof {
                lemma_after_last_range(name@, 46u8, 0);
            }
            0
        },
    };
    let mut out: Vec<u8> = Vec::new();
    if d > 1 {
        out.extend_from_slice(vstd::slice::slice_subrange(p, 0, c + d - 1));
        proof {
            assert(out@ =~= p@.take(c + d - 1));
        }
    } else {
        out.extend_from_slice(p);
    }
    let ext: [u8; 8] = [46, 100, 114, 118, 46, 98, 122, 50];
    out.extend_from_slice(ext.as_slice());
    proof {
        assert(ext@ =~= seq![46u8, 100u8, 114u8, 118u8, 46u8, 98u8, 122u8, 50u8]);
        assert(out@ =~= spec_bz2_sibling(p@));
    }
    out
}

/// What the bzip2 decoder yields for a byte string, `None` for a
/// stream it rejects: a function of the bytes alone.
pub uninterp spec fn bunzip2_of(data: Seq<u8>) -> Option<Seq<u8>>;

/// Relies on bzip2-rs's `DecoderReader`: decompresses a whole bzip2
/// stream, rejecting a malformed one.
#[verifier::external_body]
pub fn bunzip2(data: &[u8]) -> (r: Option<Vec<u8>>)
    ensures
        match r {
            Some(v) => bunzip2_of(data@) == Some(v@),
            None => bunzip2_of(data@) is None,
        },
{
    let mut out: Vec<u8> = Vec::new();
    let mut dec = bzip2_rs::DecoderReader::new(data);
    match std::io::Read::read_to_end(&mut dec, &mut out) {
        Ok(_) => Some(out),
        Err(_) => None,
    }
}

/// The token a client must list to receive the log compressed.
pub open spec fn spec_bzip2_token() -> Seq<u8> {
    seq![98u8, 122u8, 105u8, 112u8, 50u8]
}

/// How a build log is served.
pub enum LogEncoding {
    /// The raw bzip2 bytes, with `Content-Encoding: bzip2`.
    RawBzip2,
    /// Decompressed on the fly, served as plain text.
    Decompress,
    /// The plain file, with `Content-Encoding: identity`.
    Identity,
}

/// Decides how to serve a build log: a compressed log goes out raw
/// exactly when the client's accept-encoding names bzip2, and is
/// decompressed otherwise; a plain log is served as it is.
pub fn plan_log_response(is_bz2: bool, accept_encoding: &[u8]) -> (r: LogEncoding)
    ensures
        match r {
            LogEncoding::RawBzip2 => is_bz2 && (exists|j: int|
                spec_match_at(accept_encoding@, spec_bzip2_token(), j)),
            LogEncoding::Decompress => is_bz2 && !(exists|j: int|
                spec_match_at(accept_encoding@, spec_bzip2_token(), j)),
            LogEncoding::Identity => !is_bz2,
        },
{
    if !is_bz2 {
        return LogEncoding::Identity;
    }
    let tok: [u8; 5] = [98, 122, 105, 112, 50];
    proof {
        assert(tok@ =~= spec_bzip2_token());
    }
    if contains_subslice(accept_encoding, tok.as_slice()) {
        LogEncoding::RawBzip2
    } else {
        LogEncoding::Decompress
    }
}

} // verus!
