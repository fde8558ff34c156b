//! The metadata assembler: builds the per-path descriptor from the
//! daemon's path info and the configured signing keys, and renders
//! its canonical textual form.

use vstd::prelude::*;

use crate::base32::{convert_base16_to_nix32, spec_convert_ok, spec_hex_decode, spec_nix32};
use crate::config::SigningKey;
use crate::daemon::ValidPathInfo;
use crate::signing::{
    b64_of, ed25519_keypair_ok, ed25519_sig_of, fingerprint_path, sha256_prefix, sign_string,
    spec_fingerprint, spec_fp_hash_ok, spec_fp_path_ok, spec_fp_refs_ok, spec_sha256_prefix,
};
use crate::narlist::{escape_json_into, spec_json_escape};
use crate::text::{rfind_byte, spec_dec, spec_join, u64_to_dec, join};
use crate::CacheError;

verus! {

/// The query parameter of a descriptor URL: present when the JSON
/// form is wanted.
pub struct Param {
    pub json: Option<String>,
}

/// The per-path descriptor.
pub struct NarInfo {
    pub store_path: Vec<u8>,
    pub url: Vec<u8>,
    pub compression: Vec<u8>,
    pub nar_hash: Vec<u8>,
    pub nar_size: u64,
    pub references: Vec<Vec<u8>>,
    pub deriver: Option<Vec<u8>>,
    pub sigs: Vec<Vec<u8>>,
    pub ca: Option<Vec<u8>>,
}

/// Where the last path component starts: just after the last slash,
/// or the beginning when no slash occurs.
pub open spec fn spec_comp_start(t: Seq<u8>) -> int
    decreases t.len(),
{
    if t.len() == 0 {
        0
    } else if t.last() == 47u8 {
        t.len() as int
    } else {
        spec_comp_start(t.drop_last())
    }
}

/// The base name of a path: the component after the last slash, or
/// nothing when that component is empty. Daemon references are
/// absolute store paths, for which this agrees with the platform's
/// file-name rule.
pub open spec fn spec_file_name(p: Seq<u8>) -> Option<Seq<u8>> {
    let c = p.skip(spec_comp_start(p));
    if c.len() == 0 {
        None
    } else {
        Some(c)
    }
}

proof fn lemma_comp_start_range(t: Seq<u8>, q: int)
    requires
        0 <= q <= t.len(),
        forall|k: int| q <= k < t.len() ==> t[k] != 47u8,
        q > 0 ==> t[q - 1] == 47u8,
    ensures
        spec_comp_start(t) == q,
    decreases t.len(),
{
    if t.len() == 0 {
    } else if t.last() == 47u8 {
        assert(q == t.len());
    } else {
        assert(q < t.len());
        lemma_comp_start_range(t.drop_last(), q);
    }
}

/// Extracts the base name of a path, when it has one.
pub fn extract_filename(path: &[u8]) -> (r: Option<Vec<u8>>)
    ensures
        match r {
            Some(v) => spec_file_name(path@) == Some(v@),
            None => spec_file_name(path@) is None,
        },
{
    let n = path.len();
    let start: usize = match rfind_byte(path, 47) {
        Some(i) => {
            proof {
                assert(i < n);
            }
            i + 1
        },
        None => 0,
    };
    proof {
        lemma_comp_start_range(path@, start as int);
    }
    if start == path.len() {
        proof {
            assert(path@.skip(start as int).len() == 0);
        }
        None
    } else {
        let v = vstd::slice::slice_to_vec(
            vstd::slice::slice_subrange(path, start, path.len()),
        );
        proof {
            assert(v@ =~= path@.skip(start as int));
        }
        Some(v)
    }
}

/// The base names of the references that have one, in order.
pub open spec fn spec_filenames(refs: Seq<Seq<u8>>) -> Seq<Seq<u8>>
    decreases refs.len(),
{
    if refs.len() == 0 {
        Seq::empty()
    } else {
        let rest = spec_filenames(refs.drop_last());
        match spec_file_name(refs.last()) {
            Some(f) => rest.push(f),
            None => rest,
        }
    }
}

/// The bytes of `nar/`.
pub open spec fn spec_nar_prefix() -> Seq<u8> {
    seq![110u8, 97u8, 114u8, 47u8]
}

fn push_nar_prefix(out: &mut Vec<u8>)
    ensures
        final(out)@ == old(out)@ + spec_nar_prefix(),
{
    let l: [u8; 4] = [110, 97, 114, 47];
    out.extend_from_slice(l.as_slice());
    proof {
        assert(l@ =~= spec_nar_prefix());
        assert(out@ =~= old(out)@ + spec_nar_prefix());
    }
}

/// The bytes of `.nar?hash=`.
pub open spec fn spec_nar_suffix() -> Seq<u8> {
    seq![46u8, 110u8, 97u8, 114u8, 63u8, 104u8, 97u8, 115u8, 104u8, 61u8]
}

fn push_nar_suffix(out: &mut Vec<u8>)
    ensures
        final(out)@ == old(out)@ + spec_nar_suffix(),
{
    let l: [u8; 10] = [46, 110, 97, 114, 63, 104, 97, 115, 104, 61];
    out.extend_from_slice(l.as_slice());
    proof {
        assert(l@ =~= spec_nar_suffix());
        assert(out@ =~= old(out)@ + spec_nar_suffix());
    }
}

/// The bytes of `none`.
pub open spec fn spec_none_word() -> Seq<u8> {
    seq![110u8, 111u8, 110u8, 101u8]
}

fn push_none_word(out: &mut Vec<u8>)
    ensures
        final(out)@ == old(out)@ + spec_none_word(),
{
    let l: [u8; 4] = [110, 111, 110, 101];
    out.extend_from_slice(l.as_slice());
    proof {
        assert(l@ =~= spec_none_word());
        assert(out@ =~= old(out)@ + spec_none_word());
    }
}

/// The bytes of `\n`.
pub open spec fn spec_newline() -> Seq<u8> {
    seq![10u8]
}

fn push_newline(out: &mut Vec<u8>)
    ensures
        final(out)@ == old(out)@ + spec_newline(),
{
    let l: [u8; 1] = [10];
    out.extend_from_slice(l.as_slice());
    proof {
        assert(l@ =~= spec_newline());
        assert(out@ =~= old(out)@ + spec_newline());
    }
}

/// The bytes of `StorePath: `.
pub open spec fn spec_l_store_path() -> Seq<u8> {
    seq![83u8, 116u8, 111u8, 114u8, 101u8, 80u8, 97u8, 116u8, 104u8, 58u8, 32u8]
}

fn push_l_store_path(out: &mut Vec<u8>)
    ensures
        final(out)@ == old(out)@ + spec_l_store_path(),
{
    let l: [u8; 11] = [83, 116, 111, 114, 101, 80, 97, 116, 104, 58, 32];
    out.extend_from_slice(l.as_slice());
    proof {
        assert(l@ =~= spec_l_store_path());
        assert(out@ =~= old(out)@ + spec_l_store_path());
    }
}

/// The bytes of `URL: `.
pub open spec fn spec_l_url() -> Seq<u8> {
    seq![85u8, 82u8, 76u8, 58u8, 32u8]
}

fn push_l_url(out: &mut Vec<u8>)
    ensures
        final(out)@ == old(out)@ + spec_l_url(),
{
    let l: [u8; 5] = [85, 82, 76, 58, 32];
    out.extend_from_slice(l.as_slice());
    proof {
        assert(l@ =~= spec_l_url());
        assert(out@ =~= old(out)@ + spec_l_url());
    }
}

/// The bytes of `Compression: `.
pub open spec fn spec_l_compression() -> Seq<u8> {
    seq![67u8, 111u8, 109u8, 112u8, 114u8, 101u8, 115u8, 115u8, 105u8, 111u8, 110u8, 58u8, 32u8]
}

fn push_l_compression(out: &mut Vec<u8>)
    ensures
        final(out)@ == old(out)@ + spec_l_compression(),
{
    let l: [u8; 13] = [67, 111, 109, 112, 114, 101, 115, 115, 105, 111, 110, 58, 32];
    out.extend_from_slice(l.as_slice());
    proof {
        assert(l@ =~= spec_l_compression());
        assert(out@ =~= old(out)@ + spec_l_compression());
    }
}

/// The bytes of `FileHash: `.
pub open spec fn spec_l_file_hash() -> Seq<u8> {
    seq![70u8, 105u8, 108u8, 101u8, 72u8, 97u8, 115u8, 104u8, 58u8, 32u8]
}

fn push_l_file_hash(out: &mut Vec<u8>)
    ensures
        final(out)@ == old(out)@ + spec_l_file_hash(),
{
    let l: [u8; 10] = [70, 105, 108, 101, 72, 97, 115, 104, 58, 32];
    out.extend_from_slice(l.as_slice());
    proof {
        assert(l@ =~= spec_l_file_hash());
        assert(out@ =~= old(out)@ + spec_l_file_hash());
    }
}

/// The bytes of `FileSize: `.
pub open spec fn spec_l_file_size() -> Seq<u8> {
    seq![70u8, 105u8, 108u8, 101u8, 83u8, 105u8, 122u8, 101u8, 58u8, 32u8]
}

fn push_l_file_size(out: &mut Vec<u8>)
    ensures
        final(out)@ == old(out)@ + spec_l_file_size(),
{
    let l: [u8; 10] = [70, 105, 108, 101, 83, 105, 122, 101, 58, 32];
    out.extend_from_slice(l.as_slice());
    proof {
        assert(l@ =~= spec_l_file_size());
        assert(out@ =~= old(out)@ + spec_l_file_size());
    }
}

/// The bytes of `NarHash: `.
pub open spec fn spec_l_nar_hash() -> Seq<u8> {
    seq![78u8, 97u8, 114u8, 72u8, 97u8, 115u8, 104u8, 58u8, 32u8]
}

fn push_l_nar_hash(out: &mut Vec<u8>)
    ensures
        final(out)@ == old(out)@ + spec_l_nar_hash(),
{
    let l: [u8; 9] = [78, 97, 114, 72, 97, 115, 104, 58, 32];
    out.extend_from_slice(l.as_slice());
    proof {
        assert(l@ =~= spec_l_nar_hash());
        assert(out@ =~= old(out)@ + spec_l_nar_hash());
    }
}

/// The bytes of `NarSize: `.
pub open spec fn spec_l_nar_size() -> Seq<u8> {
    seq![78u8, 97u8, 114u8, 83u8, 105u8, 122u8, 101u8, 58u8, 32u8]
}

fn push_l_nar_size(out: &mut Vec<u8>)
    ensures
        final(out)@ == old(out)@ + spec_l_nar_size(),
{
    let l: [u8; 9] = [78, 97, 114, 83, 105, 122, 101, 58, 32];
    out.extend_from_slice(l.as_slice());
    proof {
        assert(l@ =~= spec_l_nar_size());
        assert(out@ =~= old(out)@ + spec_l_nar_size());
    }
}

/// The bytes of `References: `.
pub open spec fn spec_l_references() -> Seq<u8> {
    seq![82u8, 101u8, 102u8, 101u8, 114u8, 101u8, 110u8, 99u8, 101u8, 115u8, 58u8, 32u8]
}

fn push_l_references(out: &mut Vec<u8>)
    ensures
        final(out)@ == old(out)@ + spec_l_references(),
{
    let l: [u8; 12] = [82, 101, 102, 101, 114, 101, 110, 99, 101, 115, 58, 32];
    out.extend_from_slice(l.as_slice());
    proof {
        assert(l@ =~= spec_l_references());
        assert(out@ =~= old(out)@ + spec_l_references());
    }
}

/// The bytes of `Deriver: `.
pub open spec fn spec_l_deriver() -> Seq<u8> {
    seq![68u8, 101u8, 114u8, 105u8, 118u8, 101u8, 114u8, 58u8, 32u8]
}

fn push_l_deriver(out: &mut Vec<u8>)
    ensures
        final(out)@ == old(out)@ + spec_l_deriver(),
{
    let l: [u8; 9] = [68, 101, 114, 105, 118, 101, 114, 58, 32];
    out.extend_from_slice(l.as_slice());
    proof {
        assert(l@ =~= spec_l_deriver());
        assert(out@ =~= old(out)@ + spec_l_deriver());
    }
}

/// The bytes of `Sig: `.
pub open spec fn spec_l_sig() -> Seq<u8> {
    seq![83u8, 105u8, 103u8, 58u8, 32u8]
}

fn push_l_sig(out: &mut Vec<u8>)
    ensures
        final(out)@ == old(out)@ + spec_l_sig(),
{
    let l: [u8; 5] = [83, 105, 103, 58, 32];
    out.extend_from_slice(l.as_slice());
    proof {
        assert(l@ =~= spec_l_sig());
        assert(out@ =~= old(out)@ + spec_l_sig());
    }
}

/// The bytes of `CA: `.
pub open spec fn spec_l_ca() -> Seq<u8> {
    seq![67u8, 65u8, 58u8, 32u8]
}

fn push_l_ca(out: &mut Vec<u8>)
    ensures
        final(out)@ == old(out)@ + spec_l_ca(),
{
    let l: [u8; 4] = [67, 65, 58, 32];
    out.extend_from_slice(l.as_slice());
    proof {
        assert(l@ =~= spec_l_ca());
        assert(out@ =~= old(out)@ + spec_l_ca());
    }
}

/// The archive URL a descriptor points at:
/// `nar/<nix32-hash>.nar?hash=<hash-part>`.
pub open spec fn spec_nar_url(nix32: Seq<u8>, hash: Seq<u8>) -> Seq<u8> {
    spec_nar_prefix() + nix32 + spec_nar_suffix() + hash
}

/// The signatures the configured keys produce over a fingerprint.
pub open spec fn spec_sigs(keys: Seq<SigningKey>, fp: Seq<u8>) -> Seq<Seq<u8>> {
    Seq::new(
        keys.len(),
        |i: int| keys[i].name@ + seq![58u8] + b64_of(ed25519_sig_of(keys[i].key@, fp)),
    )
}

/// All keys parse as consistent Ed25519 keypairs.
pub open spec fn spec_keys_ok(keys: Seq<SigningKey>) -> bool {
    forall|i: int| 0 <= i < keys.len() ==> ed25519_keypair_ok(#[trigger] keys[i].key@)
}

/// Assembles the descriptor for one store path from the daemon's
/// record. The nar hash is re-encoded in base-32; references appear
/// as base names; each configured key signs the fingerprint, and
/// with no keys the record's own signatures are re-emitted.
#[verifier::rlimit(100)]
pub fn query_narinfo(
    virtual_store: &[u8],
    store_path: &[u8],
    hash: &[u8],
    sign_keys: &Vec<SigningKey>,
    path_info: &ValidPathInfo,
) -> (r: Result<NarInfo, CacheError>)
    requires
        forall|i: int| 0 <= i < sign_keys@.len() ==> (#[trigger] sign_keys@[i]).wf(),
    ensures
        match r {
            Ok(info) => {
                &&& spec_convert_ok(path_info.hash@)
                &&& {
                    let nix32 = spec_nix32(spec_hex_decode(path_info.hash@));
                    let full_hash = spec_sha256_prefix() + nix32;
                    let refviews = path_info.references@.map_values(|s: Vec<u8>| s@);
                    let fp = spec_fingerprint(
                        store_path@,
                        full_hash,
                        path_info.nar_size,
                        refviews,
                    );
                    &&& info.store_path@ == store_path@
                    &&& info.url@ == spec_nar_url(nix32, hash@)
                    &&& info.compression@ == spec_none_word()
                    &&& info.nar_hash@ == full_hash
                    &&& info.nar_size == path_info.nar_size
                    &&& info.references@.map_values(|s: Vec<u8>| s@) == spec_filenames(refviews)
                    &&& (match info.deriver {
                        Some(d) => path_info.deriver@.len() > 0 && d@ == path_info.deriver@,
                        None => path_info.deriver@.len() == 0,
                    })
                    &&& (match (info.ca, path_info.content_address) {
                        (Some(a), Some(b)) => a@ == b@,
                        (None, None) => true,
                        _ => false,
                    })
                    &&& spec_fp_path_ok(virtual_store@, store_path@)
                    &&& spec_fp_hash_ok(full_hash)
                    &&& spec_fp_refs_ok(virtual_store@, refviews)
                    &&& (sign_keys@.len() > 0 ==> spec_keys_ok(sign_keys@)
                        && info.sigs@.map_values(|s: Vec<u8>| s@) == spec_sigs(sign_keys@, fp))
                    &&& (sign_keys@.len() == 0 ==> info.sigs@.map_values(|s: Vec<u8>| s@)
                        == path_info.sigs@.map_values(|s: Vec<u8>| s@))
                }
            },
            Err(e) => {
                let nix32 = spec_nix32(spec_hex_decode(path_info.hash@));
                let full_hash = spec_sha256_prefix() + nix32;
                let refviews = path_info.references@.map_values(|s: Vec<u8>| s@);
                if !spec_convert_ok(path_info.hash@) {
                    e == CacheError::Internal
                } else if !spec_fp_path_ok(virtual_store@, store_path@) || !spec_fp_hash_ok(
                    full_hash,
                ) {
                    e == CacheError::Internal
                } else if !spec_fp_refs_ok(virtual_store@, refviews) {
                    e == CacheError::BadReference
                } else {
                    e == CacheError::BadKey && sign_keys@.len() > 0 && (exists|k: int|
                        0 <= k < sign_keys@.len() && !ed25519_keypair_ok(
                            #[trigger] sign_keys@[k].key@,
                        ))
                }
            },
        },
{
    let nix32 = match convert_base16_to_nix32(path_info.hash.as_slice()) {
        Ok(v) => v,
        Err(_) => {
            return Err(CacheError::Internal);
        },
    };
    let mut full_hash: Vec<u8> = sha256_prefix();
    full_hash.extend_from_slice(nix32.as_slice());

    let mut url: Vec<u8> = Vec::new();
    push_nar_prefix(&mut url);
    url.extend_from_slice(nix32.as_slice());
    push_nar_suffix(&mut url);
    url.extend_from_slice(hash);

    let mut compression: Vec<u8> = Vec::new();
    push_none_word(&mut compression);

    let mut references: Vec<Vec<u8>> = Vec::new();
    let ghost refviews = path_info.references@.map_values(|s: Vec<u8>| s@);
    let mut i: usize = 0;
    while i < path_info.references.len()
        invariant
            i <= path_info.references@.len(),
            refviews == path_info.references@.map_values(|s: Vec<u8>| s@),
            refviews.len() == path_info.references@.len(),
            references@.map_values(|s: Vec<u8>| s@) == spec_filenames(
                refviews.subrange(0, i as int),
            ),
        decreases path_info.references@.len() - i,
    {
        let ghost before = references@.map_values(|s: Vec<u8>| s@);
        match extract_filename(path_info.references[i].as_slice()) {
            Some(f) => {
                references.push(f);
            },
            None => {},
        }
        proof {
            let cur = refviews.subrange(0, i + 1);
            assert(cur.drop_last() =~= refviews.subrange(0, i as int));
            assert(cur.last() == refviews[i as int]);
            assert(references@.map_values(|s: Vec<u8>| s@) =~= spec_filenames(cur));
        }
        i = i + 1;
    }
    proof {
        assert(refviews.subrange(0, refviews.len() as int) =~= refviews);
    }

    proof {
        assert(full_hash@ =~= spec_sha256_prefix() + spec_nix32(
            spec_hex_decode(path_info.hash@),
        ));
    }
    let fingerprint = match fingerprint_path(
        virtual_store,
        store_path,
        full_hash.as_slice(),
        path_info.nar_size,
        &path_info.references,
    ) {
        Ok(f) => f,
        Err(e) => {
            return Err(e);
        },
    };

    let mut sigs: Vec<Vec<u8>> = Vec::new();
    if sign_keys.len() > 0 {
        let fp = match fingerprint {
            Some(f) => f,
            None => {
                // fingerprint_path never returns Ok(None).
                proof {
                    assert(false);
                }
                return Err(CacheError::Internal);
            },
        };
        let ghost fpv = fp@;
        let mut k: usize = 0;
        while k < sign_keys.len()
            invariant
                k <= sign_keys@.len(),
                sign_keys@.len() > 0,
                forall|i: int| 0 <= i < sign_keys@.len() ==> (#[trigger] sign_keys@[i]).wf(),
                fpv == fp@,
                spec_convert_ok(path_info.hash@),
                spec_fp_path_ok(virtual_store@, store_path@),
                spec_fp_hash_ok(
                    spec_sha256_prefix() + spec_nix32(spec_hex_decode(path_info.hash@)),
                ),
                spec_fp_refs_ok(
                    virtual_store@,
                    path_info.references@.map_values(|s: Vec<u8>| s@),
                ),
                sigs@.len() == k,
                forall|i: int|
                    0 <= i < k ==> (#[trigger] sigs@[i])@ == sign_keys@[i].name@ + seq![58u8]
                        + b64_of(ed25519_sig_of(sign_keys@[i].key@, fpv)),
                forall|i: int| 0 <= i < k ==> ed25519_keypair_ok(#[trigger] sign_keys@[i].key@),
            decreases sign_keys@.len() - k,
        {
            let s = match sign_string(&sign_keys[k], fp.as_slice()) {
                Ok(s) => s,
                Err(e) => {
                    proof {
                        assert(!ed25519_keypair_ok(sign_keys@[k as int].key@));
                    }
                    return Err(e);
                },
            };
            sigs.push(s);
            k = k + 1;
        }
        proof {
            assert(sigs@.map_values(|s: Vec<u8>| s@) =~= spec_sigs(sign_keys@, fpv));
        }
    } else {
        let mut k: usize = 0;
        while k < path_info.sigs.len()
            invariant
                k <= path_info.sigs@.len(),
                sigs@.len() == k,
                forall|i: int| 0 <= i < k ==> (#[trigger] sigs@[i])@ == path_info.sigs@[i]@,
            decreases path_info.sigs@.len() - k,
        {
            sigs.push(vstd::slice::slice_to_vec(path_info.sigs[k].as_slice()));
            k = k + 1;
        }
        proof {
            assert(sigs@.map_values(|s: Vec<u8>| s@) =~= path_info.sigs@.map_values(
                |s: Vec<u8>| s@,
            ));
        }
    }

    let deriver = if path_info.deriver.len() == 0 {
        None
    } else {
        Some(vstd::slice::slice_to_vec(path_info.deriver.as_slice()))
    };
    let ca = match &path_info.content_address {
        Some(c) => Some(vstd::slice::slice_to_vec(c.as_slice())),
        None => None,
    };

    let info = NarInfo {
        store_path: vstd::slice::slice_to_vec(store_path),
        url,
        compression,
        nar_hash: full_hash,
        nar_size: path_info.nar_size,
        references,
        deriver,
        sigs,
        ca,
    };
    proof {
        let nix32s = spec_nix32(spec_hex_decode(path_info.hash@));
        let full = spec_sha256_prefix() + nix32s;
        let fps = spec_fingerprint(store_path@, full, path_info.nar_size, refviews);
        assert(info.store_path@ =~= store_path@);
        assert(info.url@ =~= spec_nar_url(nix32s, hash@));
        assert(info.compression@ =~= spec_none_word());
        assert(info.nar_hash@ =~= full);
        assert(info.references@.map_values(|s: Vec<u8>| s@) =~= spec_filenames(refviews));
        if sign_keys@.len() > 0 {
            assert(info.sigs@.map_values(|s: Vec<u8>| s@) =~= spec_sigs(sign_keys@, fps));
        } else {
            assert(info.sigs@.map_values(|s: Vec<u8>| s@) =~= path_info.sigs@.map_values(
                |s: Vec<u8>| s@,
            ));
        }
    }
    Ok(info)
}

/// One `Sig:` line per signature.
pub open spec fn spec_sig_lines(sigs: Seq<Seq<u8>>) -> Seq<u8>
    decreases sigs.len(),
{
    if sigs.len() == 0 {
        Seq::empty()
    } else {
        spec_sig_lines(sigs.drop_last()) + spec_l_sig() + sigs.last() + spec_newline()
    }
}

/// The canonical textual descriptor: newline-separated fields with a
/// trailing empty line. The file hash and size repeat the nar hash
/// and size, as archives are served uncompressed. Record-supplied
/// fields (signatures, deriver, content address) are emitted verbatim
/// between the newlines, exactly as the spec string says: a field
/// carrying a newline would break the line structure, which the
/// daemon's records never do.
pub open spec fn spec_narinfo_txt(info: NarInfo) -> Seq<u8> {
    spec_l_store_path() + info.store_path@ + spec_newline() + spec_l_url() + info.url@
        + spec_newline() + spec_l_compression() + info.compression@ + spec_newline()
        + spec_l_file_hash() + info.nar_hash@ + spec_newline() + spec_l_file_size() + spec_dec(
        info.nar_size as int,
    ) + spec_newline() + spec_l_nar_hash() + info.nar_hash@ + spec_newline() + spec_l_nar_size()
        + spec_dec(info.nar_size as int) + spec_newline() + (if info.references@.len() > 0 {
        spec_l_references() + spec_join(
            info.references@.map_values(|s: Vec<u8>| s@),
            32u8,
        ) + spec_newline()
    } else {
        Seq::<u8>::empty()
    }) + (match info.deriver {
        Some(d) => spec_l_deriver() + d@ + spec_newline(),
        None => Seq::<u8>::empty(),
    }) + spec_sig_lines(info.sigs@.map_values(|s: Vec<u8>| s@)) + (match info.ca {
        Some(c) => spec_l_ca() + c@ + spec_newline(),
        None => Seq::<u8>::empty(),
    })
}

/// Renders the descriptor in its textual wire form.
#[verifier::rlimit(100)]
pub fn format_narinfo_txt(info: &NarInfo) -> (r: Vec<u8>)
    ensures
        r@ == spec_narinfo_txt(*info),
{
    let mut out: Vec<u8> = Vec::new();
    push_l_store_path(&mut out);
    out.extend_from_slice(info.store_path.as_slice());
    push_newline(&mut out);
    push_l_url(&mut out);
    out.extend_from_slice(info.url.as_slice());
    push_newline(&mut out);
    push_l_compression(&mut out);
    out.extend_from_slice(info.compression.as_slice());
    push_newline(&mut out);
    let size_dec = u64_to_dec(info.nar_size);
    push_l_file_hash(&mut out);
    out.extend_from_slice(info.nar_hash.as_slice());
    push_newline(&mut out);
    push_l_file_size(&mut out);
    out.extend_from_slice(size_dec.as_slice());
    push_newline(&mut out);
    push_l_nar_hash(&mut out);
    out.extend_from_slice(info.nar_hash.as_slice());
    push_newline(&mut out);
    push_l_nar_size(&mut out);
    out.extend_from_slice(size_dec.as_slice());
    push_newline(&mut out);
    if info.references.len() > 0 {
        push_l_references(&mut out);
        let joined = join(&info.references, 32);
        out.extend_from_slice(joined.as_slice());
        push_newline(&mut out);
    }
    match &info.deriver {
        Some(d) => {
            push_l_deriver(&mut out);
            out.extend_from_slice(d.as_slice());
            push_newline(&mut out);
        },
        None => {},
    }
    let ghost mid = out@;
    let ghost sigviews = info.sigs@.map_values(|s: Vec<u8>| s@);
    let mut k: usize = 0;
    proof {
        assert(sigviews.subrange(0, 0) =~= Seq::<Seq<u8>>::empty());
    }
    while k < info.sigs.len()
        invariant
            k <= info.sigs@.len(),
            sigviews == info.sigs@.map_values(|s: Vec<u8>| s@),
            sigviews.len() == info.sigs@.len(),
            out@ == mid + spec_sig_lines(sigviews.subrange(0, k as int)),
        decreases info.sigs@.len() - k,
    {
        push_l_sig(&mut out);
        out.extend_from_slice(info.sigs[k].as_slice());
        push_newline(&mut out);
        proof {
            let cur = sigviews.subrange(0, k + 1);
            assert(cur.drop_last() =~= sigviews.subrange(0, k as int));
            assert(cur.last() == sigviews[k as int]);
            assert(out@ =~= mid + spec_sig_lines(cur));
        }
        k = k + 1;
    }
    proof {
        assert(sigviews.subrange(0, sigviews.len() as int) =~= sigviews);
    }
    match &info.ca {
        Some(c) => {
            push_l_ca(&mut out);
            out.extend_from_slice(c.as_slice());
            push_newline(&mut out);
        },
        None => {},
    }
    proof {
        assert(out@ =~= spec_narinfo_txt(*info));
    }
    out
}

/// The bytes of `{\"store_path\":\"`.
pub open spec fn spec_jk_store_path() -> Seq<u8> {
    seq![123u8, 34u8, 115u8, 116u8, 111u8, 114u8, 101u8, 95u8, 112u8, 97u8, 116u8, 104u8, 34u8, 58u8, 34u8]
}

fn push_jk_store_path(out: &mut Vec<u8>)
    ensures
        final(out)@ == old(out)@ + spec_jk_store_path(),
{
    let l: [u8; 15] = [123, 34, 115, 116, 111, 114, 101, 95, 112, 97, 116, 104, 34, 58, 34];
    out.extend_from_slice(l.as_slice());
    proof {
        assert(l@ =~= spec_jk_store_path());
        assert(out@ =~= old(out)@ + spec_jk_store_path());
    }
}

/// The bytes of `\",\"url\":\"`.
pub open spec fn spec_jk_url() -> Seq<u8> {
    seq![34u8, 44u8, 34u8, 117u8, 114u8, 108u8, 34u8, 58u8, 34u8]
}

fn push_jk_url(out: &mut Vec<u8>)
    ensures
        final(out)@ == old(out)@ + spec_jk_url(),
{
    let l: [u8; 9] = [34, 44, 34, 117, 114, 108, 34, 58, 34];
    out.extend_from_slice(l.as_slice());
    proof {
        assert(l@ =~= spec_jk_url());
        assert(out@ =~= old(out)@ + spec_jk_url());
    }
}

/// The bytes of `\",\"compression\":\"`.
pub open spec fn spec_jk_compression() -> Seq<u8> {
    seq![34u8, 44u8, 34u8, 99u8, 111u8, 109u8, 112u8, 114u8, 101u8, 115u8, 115u8, 105u8, 111u8, 110u8, 34u8, 58u8, 34u8]
}

fn push_jk_compression(out: &mut Vec<u8>)
    ensures
        final(out)@ == old(out)@ + spec_jk_compression(),
{
    let l: [u8; 17] = [34, 44, 34, 99, 111, 109, 112, 114, 101, 115, 115, 105, 111, 110, 34, 58, 34];
    out.extend_from_slice(l.as_slice());
    proof {
        assert(l@ =~= spec_jk_compression());
        assert(out@ =~= old(out)@ + spec_jk_compression());
    }
}

/// The bytes of `\",\"nar_hash\":\"`.
pub open spec fn spec_jk_nar_hash() -> Seq<u8> {
    seq![34u8, 44u8, 34u8, 110u8, 97u8, 114u8, 95u8, 104u8, 97u8, 115u8, 104u8, 34u8, 58u8, 34u8]
}

fn push_jk_nar_hash(out: &mut Vec<u8>)
    ensures
        final(out)@ == old(out)@ + spec_jk_nar_hash(),
{
    let l: [u8; 14] = [34, 44, 34, 110, 97, 114, 95, 104, 97, 115, 104, 34, 58, 34];
    out.extend_from_slice(l.as_slice());
    proof {
        assert(l@ =~= spec_jk_nar_hash());
        assert(out@ =~= old(out)@ + spec_jk_nar_hash());
    }
}

/// The bytes of `\",\"nar_size\":`.
pub open spec fn spec_jk_nar_size() -> Seq<u8> {
    seq![34u8, 44u8, 34u8, 110u8, 97u8, 114u8, 95u8, 115u8, 105u8, 122u8, 101u8, 34u8, 58u8]
}

fn push_jk_nar_size(out: &mut Vec<u8>)
    ensures
        final(out)@ == old(out)@ + spec_jk_nar_size(),
{
    let l: [u8; 13] = [34, 44, 34, 110, 97, 114, 95, 115, 105, 122, 101, 34, 58];
    out.extend_from_slice(l.as_slice());
    proof {
        assert(l@ =~= spec_jk_nar_size());
        assert(out@ =~= old(out)@ + spec_jk_nar_size());
    }
}

/// The bytes of `,\"references\":`.
pub open spec fn spec_jk_references() -> Seq<u8> {
    seq![44u8, 34u8, 114u8, 101u8, 102u8, 101u8, 114u8, 101u8, 110u8, 99u8, 101u8, 115u8, 34u8, 58u8]
}

fn push_jk_references(out: &mut Vec<u8>)
    ensures
        final(out)@ == old(out)@ + spec_jk_references(),
{
    let l: [u8; 14] = [44, 34, 114, 101, 102, 101, 114, 101, 110, 99, 101, 115, 34, 58];
    out.extend_from_slice(l.as_slice());
    proof {
        assert(l@ =~= spec_jk_references());
        assert(out@ =~= old(out)@ + spec_jk_references());
    }
}

/// The bytes of `,\"deriver\":`.
pub open spec fn spec_jk_deriver() -> Seq<u8> {
    seq![44u8, 34u8, 100u8, 101u8, 114u8, 105u8, 118u8, 101u8, 114u8, 34u8, 58u8]
}

fn push_jk_deriver(out: &mut Vec<u8>)
    ensures
        final(out)@ == old(out)@ + spec_jk_deriver(),
{
    let l: [u8; 11] = [44, 34, 100, 101, 114, 105, 118, 101, 114, 34, 58];
    out.extend_from_slice(l.as_slice());
    proof {
        assert(l@ =~= spec_jk_deriver());
        assert(out@ =~= old(out)@ + spec_jk_deriver());
    }
}

/// The bytes of `,\"sigs\":`.
pub open spec fn spec_jk_sigs() -> Seq<u8> {
    seq![44u8, 34u8, 115u8, 105u8, 103u8, 115u8, 34u8, 58u8]
}

fn push_jk_sigs(out: &mut Vec<u8>)
    ensures
        final(out)@ == old(out)@ + spec_jk_sigs(),
{
    let l: [u8; 8] = [44, 34, 115, 105, 103, 115, 34, 58];
    out.extend_from_slice(l.as_slice());
    proof {
        assert(l@ =~= spec_jk_sigs());
        assert(out@ =~= old(out)@ + spec_jk_sigs());
    }
}

/// The bytes of `,\"ca\":`.
pub open spec fn spec_jk_ca() -> Seq<u8> {
    seq![44u8, 34u8, 99u8, 97u8, 34u8, 58u8]
}

fn push_jk_ca(out: &mut Vec<u8>)
    ensures
        final(out)@ == old(out)@ + spec_jk_ca(),
{
    let l: [u8; 6] = [44, 34, 99, 97, 34, 58];
    out.extend_from_slice(l.as_slice());
    proof {
        assert(l@ =~= spec_jk_ca());
        assert(out@ =~= old(out)@ + spec_jk_ca());
    }
}

/// The bytes of `null`.
pub open spec fn spec_j_null() -> Seq<u8> {
    seq![110u8, 117u8, 108u8, 108u8]
}

fn push_j_null(out: &mut Vec<u8>)
    ensures
        final(out)@ == old(out)@ + spec_j_null(),
{
    let l: [u8; 4] = [110, 117, 108, 108];
    out.extend_from_slice(l.as_slice());
    proof {
        assert(l@ =~= spec_j_null());
        assert(out@ =~= old(out)@ + spec_j_null());
    }
}

/// The bytes of `\"`.
pub open spec fn spec_j_quote() -> Seq<u8> {
    seq![34u8]
}

fn push_j_quote(out: &mut Vec<u8>)
    ensures
        final(out)@ == old(out)@ + spec_j_quote(),
{
    let l: [u8; 1] = [34];
    out.extend_from_slice(l.as_slice());
    proof {
        assert(l@ =~= spec_j_quote());
        assert(out@ =~= old(out)@ + spec_j_quote());
    }
}

/// The bytes of `[`.
pub open spec fn spec_j_lbrack() -> Seq<u8> {
    seq![91u8]
}

fn push_j_lbrack(out: &mut Vec<u8>)
    ensures
        final(out)@ == old(out)@ + spec_j_lbrack(),
{
    let l: [u8; 1] = [91];
    out.extend_from_slice(l.as_slice());
    proof {
        assert(l@ =~= spec_j_lbrack());
        assert(out@ =~= old(out)@ + spec_j_lbrack());
    }
}

/// The bytes of `]`.
pub open spec fn spec_j_rbrack() -> Seq<u8> {
    seq![93u8]
}

fn push_j_rbrack(out: &mut Vec<u8>)
    ensures
        final(out)@ == old(out)@ + spec_j_rbrack(),
{
    let l: [u8; 1] = [93];
    out.extend_from_slice(l.as_slice());
    proof {
        assert(l@ =~= spec_j_rbrack());
        assert(out@ =~= old(out)@ + spec_j_rbrack());
    }
}

/// The bytes of `}`.
pub open spec fn spec_j_rbrace() -> Seq<u8> {
    seq![125u8]
}

fn push_j_rbrace(out: &mut Vec<u8>)
    ensures
        final(out)@ == old(out)@ + spec_j_rbrace(),
{
    let l: [u8; 1] = [125];
    out.extend_from_slice(l.as_slice());
    proof {
        assert(l@ =~= spec_j_rbrace());
        assert(out@ =~= old(out)@ + spec_j_rbrace());
    }
}

/// The bytes of `,`.
pub open spec fn spec_j_comma() -> Seq<u8> {
    seq![44u8]
}

fn push_j_comma(out: &mut Vec<u8>)
    ensures
        final(out)@ == old(out)@ + spec_j_comma(),
{
    let l: [u8; 1] = [44];
    out.extend_from_slice(l.as_slice());
    proof {
        assert(l@ =~= spec_j_comma());
        assert(out@ =~= old(out)@ + spec_j_comma());
    }
}

/// A JSON array of strings, each escaped and quoted.
pub open spec fn spec_json_str_array(l: Seq<Seq<u8>>, i: int) -> Seq<u8>
    decreases l.len() - i,
{
    if i < 0 || i >= l.len() {
        Seq::<u8>::empty()
    } else {
        (if i > 0 {
            spec_j_comma()
        } else {
            Seq::<u8>::empty()
        }) + spec_j_quote() + spec_json_escape(l[i]) + spec_j_quote() + spec_json_str_array(
            l,
            i + 1,
        )
    }
}

/// An optional string field value: `null` or the escaped string.
pub open spec fn spec_json_opt(o: Option<Vec<u8>>) -> Seq<u8> {
    match o {
        Some(v) => spec_j_quote() + spec_json_escape(v@) + spec_j_quote(),
        None => spec_j_null(),
    }
}

/// The JSON form of the descriptor, fields in their canonical order.
pub open spec fn spec_narinfo_json(info: NarInfo) -> Seq<u8> {
    spec_jk_store_path() + spec_json_escape(info.store_path@) + spec_jk_url() + spec_json_escape(
        info.url@,
    ) + spec_jk_compression() + spec_json_escape(info.compression@) + spec_jk_nar_hash()
        + spec_json_escape(info.nar_hash@) + spec_jk_nar_size() + spec_dec(info.nar_size as int)
        + spec_jk_references() + spec_j_lbrack() + spec_json_str_array(
        info.references@.map_values(|s: Vec<u8>| s@),
        0,
    ) + spec_j_rbrack() + spec_jk_deriver() + spec_json_opt(info.deriver) + spec_jk_sigs()
        + spec_j_lbrack() + spec_json_str_array(
        info.sigs@.map_values(|s: Vec<u8>| s@),
        0,
    ) + spec_j_rbrack() + spec_jk_ca() + spec_json_opt(info.ca) + spec_j_rbrace()
}

fn push_json_str_array(out: &mut Vec<u8>, l: &Vec<Vec<u8>>)
    ensures
        final(out)@ == old(out)@ + spec_j_lbrack() + spec_json_str_array(
            l@.map_values(|s: Vec<u8>| s@),
            0,
        ) + spec_j_rbrack(),
{
    push_j_lbrack(out);
    let ghost views = l@.map_values(|s: Vec<u8>| s@);
    let ghost header = old(out)@ + spec_j_lbrack();
    let mut i: usize = 0;
    while i < l.len()
        invariant
            i <= l@.len(),
            views == l@.map_values(|s: Vec<u8>| s@),
            views.len() == l@.len(),
            out@ + spec_json_str_array(views, i as int) == header + spec_json_str_array(views, 0),
        decreases l@.len() - i,
    {
        let ghost before = out@;
        if i > 0 {
            push_j_comma(out);
        }
        push_j_quote(out);
        escape_json_into(out, l[i].as_slice());
        push_j_quote(out);
        proof {
            assert(out@ =~= before + ((if i > 0 {
                spec_j_comma()
            } else {
                Seq::<u8>::empty()
            }) + spec_j_quote() + spec_json_escape(views[i as int]) + spec_j_quote()));
            assert(out@ + spec_json_str_array(views, i + 1) =~= before + spec_json_str_array(
                views,
                i as int,
            ));
        }
        i = i + 1;
    }
    push_j_rbrack(out);
    proof {
        assert(spec_json_str_array(views, views.len() as int) =~= Seq::<u8>::empty());
        assert(out@ =~= old(out)@ + spec_j_lbrack() + spec_json_str_array(views, 0)
            + spec_j_rbrack());
    }
}

/// Renders the descriptor in its JSON form, served when the request
/// asks for it.
#[verifier::rlimit(100)]
pub fn format_narinfo_json(info: &NarInfo) -> (r: Vec<u8>)
    ensures
        r@ == spec_narinfo_json(*info),
{
    let mut out: Vec<u8> = Vec::new();
    push_jk_store_path(&mut out);
    escape_json_into(&mut out, info.store_path.as_slice());
    push_jk_url(&mut out);
    escape_json_into(&mut out, info.url.as_slice());
    push_jk_compression(&mut out);
    escape_json_into(&mut out, info.compression.as_slice());
    push_jk_nar_hash(&mut out);
    escape_json_into(&mut out, info.nar_hash.as_slice());
    push_jk_nar_size(&mut out);
    let d = u64_to_dec(info.nar_size);
    out.extend_from_slice(d.as_slice());
    push_jk_references(&mut out);
    push_json_str_array(&mut out, &info.references);
    push_jk_deriver(&mut out);
    match &info.deriver {
        Some(v) => {
            push_j_quote(&mut out);
            escape_json_into(&mut out, v.as_slice());
            push_j_quote(&mut out);
        },
        None => {
            push_j_null(&mut out);
        },
    }
    push_jk_sigs(&mut out);
    push_json_str_array(&mut out, &info.sigs);
    push_jk_ca(&mut out);
    match &info.ca {
        Some(v) => {
            push_j_quote(&mut out);
            escape_json_into(&mut out, v.as_slice());
            push_j_quote(&mut out);
        },
        None => {
            push_j_null(&mut out);
        },
    }
    push_j_rbrace(&mut out);
    proof {
        assert(out@ =~= spec_narinfo_json(*info));
    }
    out
}

} // verus!
