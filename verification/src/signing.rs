//! Signing-key parsing, store-path fingerprints, and detached Ed25519
//! signatures rendered as `name:base64`.

use vstd::prelude::*;

use crate::config::SigningKey;
use crate::text::{spec_dec, spec_join, spec_starts_with, find_byte, join, starts_with, u64_to_dec};
use crate::CacheError;

verus! {

/// What base64's STANDARD engine produces for a byte string.
pub uninterp spec fn b64_of(b: Seq<u8>) -> Seq<u8>;

/// What base64's STANDARD engine accepts back, `None` for a rejected
/// input.
pub uninterp spec fn b64_decode_of(s: Seq<u8>) -> Option<Seq<u8>>;

/// Whether 64 bytes parse as a consistent Ed25519 keypair: a valid
/// seed followed by the public key that the seed derives.
pub uninterp spec fn ed25519_keypair_ok(key: Seq<u8>) -> bool;

/// The detached Ed25519 signature of a message under a 64-byte
/// keypair. Ed25519 signing is deterministic: the signature is a
/// function of the key and the message alone.
pub uninterp spec fn ed25519_sig_of(key: Seq<u8>, msg: Seq<u8>) -> Seq<u8>;

/// Whether 32 public-key bytes accept a signature over a message.
pub uninterp spec fn ed25519_verifies(pk: Seq<u8>, msg: Seq<u8>, sig: Seq<u8>) -> bool;

/// Relies on base64's `Engine::encode` with the STANDARD engine:
/// canonical padded base-64, four output characters for every three
/// input bytes, accepted back by the same engine's decode.
#[verifier::external_body]
fn b64_encode(b: &[u8]) -> (r: Vec<u8>)
    ensures
        r@ == b64_of(b@),
        r@.len() == 4 * ((b@.len() + 2) / 3),
        b64_decode_of(r@) == Some(b@),
{
    base64::Engine::encode(&base64::engine::general_purpose::STANDARD, b).into_bytes()
}

/// Relies on base64's `Engine::decode` with the STANDARD engine, which
/// requires canonical padding.
#[verifier::external_body]
fn b64_decode(s: &[u8]) -> (r: Option<Vec<u8>>)
    ensures
        match r {
            Some(v) => b64_decode_of(s@) == Some(v@),
            None => b64_decode_of(s@) is None,
        },
{
    match base64::Engine::decode(&base64::engine::general_purpose::STANDARD, s) {
        Ok(v) => Some(v),
        Err(_) => None,
    }
}

/// Relies on ed25519-dalek: `SigningKey::from_keypair_bytes` accepts
/// exactly the consistent 64-byte keypairs, and `Signer::sign` then
/// produces the deterministic 64-byte detached signature, which the
/// keypair's own public half verifies.
#[verifier::external_body]
fn ed25519_sign(key: &[u8], msg: &[u8]) -> (r: Option<Vec<u8>>)
    requires
        key@.len() == 64,
    ensures
        match r {
            Some(s) => {
                &&& ed25519_keypair_ok(key@)
                &&& s@ == ed25519_sig_of(key@, msg@)
                &&& s@.len() == 64
                &&& ed25519_verifies(key@.subrange(32, 64), msg@, s@)
            },
            None => !ed25519_keypair_ok(key@),
        },
{
    let arr: [u8; 64] = match key.try_into() {
        Ok(a) => a,
        Err(_) => return None,
    };
    match ed25519_dalek::SigningKey::from_keypair_bytes(&arr) {
        Ok(sk) => Some(ed25519_dalek::Signer::sign(&sk, msg).to_bytes().to_vec()),
        Err(_) => None,
    }
}

/// Relies on ed25519-dalek: `VerifyingKey::from_bytes` then
/// `Verifier::verify`; bytes that parse as no key verify nothing.
#[verifier::external_body]
pub(crate) fn ed25519_verify(pk: &[u8], msg: &[u8], sig: &[u8]) -> (r: bool)
    ensures
        r == ed25519_verifies(pk@, msg@, sig@),
{
    let pkarr: [u8; 32] = match pk.try_into() {
        Ok(a) => a,
        Err(_) => return false,
    };
    let sigarr: [u8; 64] = match sig.try_into() {
        Ok(a) => a,
        Err(_) => return false,
    };
    match ed25519_dalek::VerifyingKey::from_bytes(&pkarr) {
        Ok(vk) => {
            let s = ed25519_dalek::Signature::from_bytes(&sigarr);
            ed25519_dalek::Verifier::verify(&vk, msg, &s).is_ok()
        },
        Err(_) => false,
    }
}

/// ASCII whitespace, as trimmed around the base-64 payload of a key
/// file.
pub open spec fn spec_is_ws(b: u8) -> bool {
    b == 32 || b == 9 || b == 10 || b == 13 || b == 11 || b == 12
}

/// A byte string with leading whitespace removed.
pub open spec fn spec_trim_start(s: Seq<u8>) -> Seq<u8>
    decreases s.len(),
{
    if s.len() > 0 && spec_is_ws(s[0]) {
        spec_trim_start(s.skip(1))
    } else {
        s
    }
}

/// A byte string with trailing whitespace removed.
pub open spec fn spec_trim_end(s: Seq<u8>) -> Seq<u8>
    decreases s.len(),
{
    if s.len() > 0 && spec_is_ws(s.last()) {
        spec_trim_end(s.drop_last())
    } else {
        s
    }
}

/// A byte string with whitespace removed on both sides.
pub open spec fn spec_trim(s: Seq<u8>) -> Seq<u8> {
    spec_trim_end(spec_trim_start(s))
}

proof fn lemma_trim_start_range(s: Seq<u8>, a: int)
    requires
        0 <= a <= s.len(),
        forall|k: int| 0 <= k < a ==> spec_is_ws(#[trigger] s[k]),
        a < s.len() ==> !spec_is_ws(s[a]),
    ensures
        spec_trim_start(s) == s.skip(a),
    decreases a,
{
    if a == 0 {
        if s.len() > 0 && spec_is_ws(s[0]) {
            assert(false);
        }
        assert(s.skip(0) =~= s);
    } else {
        assert(spec_is_ws(s[0]));
        lemma_trim_start_range(s.skip(1), a - 1);
        assert(s.skip(1).skip(a - 1) =~= s.skip(a));
    }
}

proof fn lemma_trim_end_range(s: Seq<u8>, b: int)
    requires
        0 <= b <= s.len(),
        forall|k: int| b <= k < s.len() ==> spec_is_ws(#[trigger] s[k]),
        b > 0 ==> !spec_is_ws(s[b - 1]),
    ensures
        spec_trim_end(s) == s.take(b),
    decreases s.len() - b,
{
    if b == s.len() {
        if s.len() > 0 && spec_is_ws(s.last()) {
            assert(false);
        }
        assert(s.take(b) =~= s);
    } else {
        assert(spec_is_ws(s.last()));
        lemma_trim_end_range(s.drop_last(), b);
        assert(s.drop_last().take(b) =~= s.take(b));
    }
}

fn is_ws(b: u8) -> (r: bool)
    ensures
        r == spec_is_ws(b),
{
    b == 32 || b == 9 || b == 10 || b == 13 || b == 11 || b == 12
}

/// Removes ASCII whitespace from both ends of a byte string.
pub fn trim(s: &[u8]) -> (r: Vec<u8>)
    ensures
        r@ == spec_trim(s@),
{
    let mut a: usize = 0;
    while a < s.len() && is_ws(s[a])
        invariant
            a <= s@.len(),
            forall|k: int| 0 <= k < a ==> spec_is_ws(#[trigger] s@[k]),
        decreases s@.len() - a,
    {
        a = a + 1;
    }
    proof {
        lemma_trim_start_range(s@, a as int);
    }
    let mut b: usize = s.len();
    while b > a && is_ws(s[b - 1])
        invariant
            a <= b <= s@.len(),
            forall|k: int| b <= k < s@.len() ==> spec_is_ws(#[trigger] s@[k]),
        decreases b,
    {
        b = b - 1;
    }
    proof {
        let t = spec_trim_start(s@);
        assert(t == s@.skip(a as int));
        assert forall|k: int| b - a <= k < t.len() implies spec_is_ws(#[trigger] t[k]) by {
            assert(t[k] == s@[k + a]);
        }
        if b > a {
            assert(t[b - a - 1] == s@[b - 1]);
        }
        lemma_trim_end_range(t, b - a);
    }
    let out = vstd::slice::slice_to_vec(vstd::slice::slice_subrange(s, a, b));
    proof {
        assert(out@ =~= spec_trim_start(s@).take(b - a));
    }
    out
}

/// The split of a key file at its first `:`: the name on the left, the
/// payload on the right. `None` when no `:` occurs.
pub open spec fn spec_key_split(c: Seq<u8>) -> Option<(Seq<u8>, Seq<u8>)> {
    if exists|i: int| 0 <= i < c.len() && c[i] == 58u8 {
        let i = choose|i: int|
            0 <= i < c.len() && c[i] == 58u8 && forall|j: int| 0 <= j < i ==> c[j] != 58u8;
        Some((c.take(i), c.skip(i + 1)))
    } else {
        None
    }
}

/// When parsing a key file succeeds: it holds a `:`, and the payload
/// after it, with surrounding whitespace ignored, decodes as base-64
/// to exactly 64 bytes.
pub open spec fn spec_key_ok(c: Seq<u8>) -> bool {
    match spec_key_split(c) {
        Some((_, payload)) => match b64_decode_of(spec_trim(payload)) {
            Some(k) => k.len() == 64,
            None => false,
        },
        None => false,
    }
}

/// Parses the contents of a signing-key file, `<name>:<base64 of the
/// 64-byte expanded secret>`. Any deviation is a bad key.
pub fn parse_secret_key(contents: &[u8]) -> (r: Result<SigningKey, CacheError>)
    ensures
        match r {
            Ok(k) => {
                &&& spec_key_ok(contents@)
                &&& k.wf()
                &&& k.name@ == spec_key_split(contents@).unwrap().0
                &&& b64_decode_of(spec_trim(spec_key_split(contents@).unwrap().1)) == Some(
                    k.key@,
                )
            },
            Err(e) => !spec_key_ok(contents@) && e == CacheError::BadKey,
        },
{
    let colon = match find_byte(contents, 58) {
        Some(i) => i,
        None => {
            return Err(CacheError::BadKey);
        },
    };
    proof {
        let c = contents@;
        assert(c[colon as int] == 58u8);
        let w = choose|i: int|
            0 <= i < c.len() && c[i] == 58u8 && forall|j: int| 0 <= j < i ==> c[j] != 58u8;
        assert(0 <= colon < c.len() && c[colon as int] == 58u8 && forall|j: int|
            0 <= j < colon ==> c[j] != 58u8);
        if w != colon as int {
            assert(c[w] == 58u8);
            assert(c[colon as int] == 58u8);
            if w < colon as int {
                assert(false);
            } else {
                assert(false);
            }
        }
    }
    let clen = contents.len();
    proof {
        assert(colon < clen);
    }
    let name = vstd::slice::slice_to_vec(vstd::slice::slice_subrange(contents, 0, colon));
    let payload = vstd::slice::slice_subrange(contents, colon + 1, clen);
    proof {
        assert(name@ =~= contents@.take(colon as int));
        assert(payload@ =~= contents@.skip(colon + 1));
    }
    let trimmed = trim(payload);
    let key = match b64_decode(trimmed.as_slice()) {
        Some(k) => k,
        None => {
            return Err(CacheError::BadKey);
        },
    };
    if key.len() != 64 {
        return Err(CacheError::BadKey);
    }
    Ok(SigningKey { name, key })
}

/// The bytes of the prefix every nar hash must carry.
pub open spec fn spec_sha256_prefix() -> Seq<u8> {
    seq![115u8, 104u8, 97u8, 50u8, 53u8, 54u8, 58u8]
}

pub(crate) fn sha256_prefix() -> (r: Vec<u8>)
    ensures
        r@ == spec_sha256_prefix(),
{
    let mut v: Vec<u8> = Vec::new();
    v.push(115);
    v.push(104);
    v.push(97);
    v.push(50);
    v.push(53);
    v.push(54);
    v.push(58);
    proof {
        assert(v@ =~= spec_sha256_prefix());
    }
    v
}

/// The canonical fingerprint text:
/// `1;<store-path>;<nar-hash>;<nar-size>;<refs joined by ,>`.
pub open spec fn spec_fingerprint(
    store_path: Seq<u8>,
    nar_hash: Seq<u8>,
    nar_size: u64,
    refs: Seq<Seq<u8>>,
) -> Seq<u8> {
    seq![49u8, 59u8] + store_path + seq![59u8] + nar_hash + seq![59u8] + spec_dec(
        nar_size as int,
    ) + seq![59u8] + spec_join(refs, 44u8)
}

/// The store path lies under the store prefix.
pub open spec fn spec_fp_path_ok(store_dir: Seq<u8>, store_path: Seq<u8>) -> bool {
    spec_starts_with(store_path, store_dir)
}

/// The nar hash is `sha256:` followed by 52 base-32 characters.
pub open spec fn spec_fp_hash_ok(nar_hash: Seq<u8>) -> bool {
    spec_starts_with(nar_hash, spec_sha256_prefix()) && nar_hash.len() == 59
}

/// Every reference lies under the store prefix.
pub open spec fn spec_fp_refs_ok(store_dir: Seq<u8>, refs: Seq<Seq<u8>>) -> bool {
    forall|i: int| 0 <= i < refs.len() ==> spec_starts_with(#[trigger] refs[i], store_dir)
}

/// Assembles the fingerprint to sign for a store path. The store path
/// and every reference must lie under the store prefix, and the nar
/// hash must be a well-formed `sha256:` string.
pub fn fingerprint_path(
    store_dir: &[u8],
    store_path: &[u8],
    nar_hash: &[u8],
    nar_size: u64,
    refs: &Vec<Vec<u8>>,
) -> (r: Result<Option<Vec<u8>>, CacheError>)
    ensures
        match r {
            Ok(o) => {
                &&& spec_fp_path_ok(store_dir@, store_path@)
                &&& spec_fp_hash_ok(nar_hash@)
                &&& spec_fp_refs_ok(store_dir@, refs@.map_values(|s: Vec<u8>| s@))
                &&& o matches Some(v) && v@ == spec_fingerprint(
                    store_path@,
                    nar_hash@,
                    nar_size,
                    refs@.map_values(|s: Vec<u8>| s@),
                )
            },
            Err(e) => {
                &&& !(spec_fp_path_ok(store_dir@, store_path@) && spec_fp_hash_ok(nar_hash@)
                    && spec_fp_refs_ok(store_dir@, refs@.map_values(|s: Vec<u8>| s@)))
                &&& if !spec_fp_path_ok(store_dir@, store_path@) || !spec_fp_hash_ok(nar_hash@) {
                    e == CacheError::Internal
                } else {
                    e == CacheError::BadReference
                }
            },
        },
{
    if !starts_with(store_path, store_dir) {
        return Err(CacheError::Internal);
    }
    let prefix = sha256_prefix();
    if !starts_with(nar_hash, prefix.as_slice()) || nar_hash.len() != 59 {
        return Err(CacheError::Internal);
    }
    let ghost refviews = refs@.map_values(|s: Vec<u8>| s@);
    let mut i: usize = 0;
    while i < refs.len()
        invariant
            i <= refs@.len(),
            refviews == refs@.map_values(|s: Vec<u8>| s@),
            spec_fp_path_ok(store_dir@, store_path@),
            spec_fp_hash_ok(nar_hash@),
            forall|k: int| 0 <= k < i ==> spec_starts_with(#[trigger] refviews[k], store_dir@),
        decreases refs@.len() - i,
    {
        if !starts_with(refs[i].as_slice(), store_dir) {
            proof {
                assert(refviews[i as int] == refs@[i as int]@);
                assert(!spec_starts_with(refviews[i as int], store_dir@));
            }
            return Err(CacheError::BadReference);
        }
        i = i + 1;
    }
    let mut out: Vec<u8> = Vec::new();
    out.push(49);
    out.push(59);
    out.extend_from_slice(store_path);
    out.push(59);
    out.extend_from_slice(nar_hash);
    out.push(59);
    let dec = u64_to_dec(nar_size);
    out.extend_from_slice(dec.as_slice());
    out.push(59);
    let joined = join(refs, 44);
    out.extend_from_slice(joined.as_slice());
    proof {
        assert(out@ =~= spec_fingerprint(store_path@, nar_hash@, nar_size, refviews));
    }
    Ok(Some(out))
}

/// Law: fingerprint stability. The fingerprint is a function of its
/// inputs alone, and it pins the reference list down: two reference
/// lists of non-empty, comma-free paths that fingerprint alike under
/// the same path, hash and size are the same list — so permuting a
/// list of distinct references changes the fingerprint.
pub proof fn lemma_fingerprint_refs_injective(
    store_path: Seq<u8>,
    nar_hash: Seq<u8>,
    nar_size: u64,
    refs1: Seq<Seq<u8>>,
    refs2: Seq<Seq<u8>>,
)
    requires
        crate::text::spec_joinable(refs1, 44u8),
        crate::text::spec_joinable(refs2, 44u8),
        spec_fingerprint(store_path, nar_hash, nar_size, refs1) == spec_fingerprint(
            store_path,
            nar_hash,
            nar_size,
            refs2,
        ),
    ensures
        refs1 == refs2,
{
    let p = seq![49u8, 59u8] + store_path + seq![59u8] + nar_hash + seq![59u8] + spec_dec(
        nar_size as int,
    ) + seq![59u8];
    let f1 = spec_fingerprint(store_path, nar_hash, nar_size, refs1);
    let f2 = spec_fingerprint(store_path, nar_hash, nar_size, refs2);
    assert(f1 =~= p + spec_join(refs1, 44u8));
    assert(f2 =~= p + spec_join(refs2, 44u8));
    assert(spec_join(refs1, 44u8) =~= f1.skip(p.len() as int));
    assert(spec_join(refs2, 44u8) =~= f2.skip(p.len() as int));
    crate::text::lemma_join_injective(refs1, refs2, 44u8);
}

/// Signs a message with a key and renders `name:base64(signature)`.
/// Fails only when the 64 key bytes are not a consistent Ed25519
/// keypair.
pub fn sign_string(sign_key: &SigningKey, msg: &[u8]) -> (r: Result<Vec<u8>, CacheError>)
    requires
        sign_key.wf(),
    ensures
        match r {
            Ok(s) => {
                &&& ed25519_keypair_ok(sign_key.key@)
                &&& s@ == sign_key.name@ + seq![58u8] + b64_of(
                    ed25519_sig_of(sign_key.key@, msg@),
                )
            },
            Err(e) => !ed25519_keypair_ok(sign_key.key@) && e == CacheError::BadKey,
        },
{
    let sig = match ed25519_sign(sign_key.key.as_slice(), msg) {
        Some(s) => s,
        None => {
            return Err(CacheError::BadKey);
        },
    };
    let b64 = b64_encode(sig.as_slice());
    let mut out: Vec<u8> = Vec::new();
    out.extend_from_slice(sign_key.name.as_slice());
    out.push(58);
    out.extend_from_slice(b64.as_slice());
    proof {
        assert(out@ =~= sign_key.name@ + seq![58u8] + b64_of(
            ed25519_sig_of(sign_key.key@, msg@),
        ));
    }
    Ok(out)
}

/// Law: a signature produced with a consistent keypair verifies under
/// the public half of that keypair. Returns `None` exactly when the
/// key bytes are not a consistent keypair; otherwise the verification
/// it reports succeeded.
pub fn sign_then_verify(sign_key: &SigningKey, msg: &[u8]) -> (r: Option<bool>)
    requires
        sign_key.wf(),
    ensures
        match r {
            Some(ok) => ok && ed25519_keypair_ok(sign_key.key@),
            None => !ed25519_keypair_ok(sign_key.key@),
        },
{
    let sig = match ed25519_sign(sign_key.key.as_slice(), msg) {
        Some(s) => s,
        None => {
            return None;
        },
    };
    let pk = vstd::slice::slice_subrange(sign_key.key.as_slice(), 32, 64);
    let ok = ed25519_verify(pk, msg, sig.as_slice());
    proof {
        assert(pk@ =~= sign_key.key@.subrange(32, 64));
        assert(ok);
    }
    Some(ok)
}

} // verus!
