use harmonia::base32::{convert_base16_to_nix32, from_hex, hex_encode, to_nix_base32};
use harmonia::buildlog::{bz2_sibling, get_build_log, plan_log_response, query_drv_path, LogEncoding};
use harmonia::config::{default_bind, default_connection_rate, default_priority, default_virtual_store, default_workers, SigningKey};
use harmonia::signing::{fingerprint_path, parse_secret_key, sign_string, sign_then_verify, trim};
use harmonia::store::{get_real_store_dir, get_store_dir, Store};
use harmonia::text::{contains_subslice, find_subslice, join, starts_with, u64_to_dec};
use harmonia::wire::{alignment, encode_string, parse_string, parse_u64};
use harmonia::CacheError;

fn b64(data: &[u8]) -> String {
    base64::Engine::encode(&base64::engine::general_purpose::STANDARD, data)
}

fn test_keypair() -> (Vec<u8>, ed25519_dalek::SigningKey) {
    let seed: [u8; 32] = [7; 32];
    let sk = ed25519_dalek::SigningKey::from_bytes(&seed);
    (sk.to_keypair_bytes().to_vec(), sk)
}

#[test]
fn test_signing() {
    let (key_bytes, dalek_sk) = test_keypair();
    let key = SigningKey {
        name: b"cache.example.com-1".to_vec(),
        key: key_bytes,
    };
    let references = vec![
        b"/nix/store/26xbg1ndr7hbcncrlf9nhx5is2b25d13-hello-2.12.1".to_vec(),
        b"/nix/store/sl141d1g77wvhr050ah87lcyz2czdxa3-glibc-2.40-36".to_vec(),
    ];
    let finger_print = fingerprint_path(
        b"/nix/store",
        b"/nix/store/26xbg1ndr7hbcncrlf9nhx5is2b25d13-hello-2.12.1",
        b"sha256:1mkvday29m2qxg1fnbv8xh9s6151bh8a2xzhh0k86j7lqhyfwibh",
        226560,
        &references,
    )
    .unwrap()
    .unwrap();
    let expected_fp = "1;/nix/store/26xbg1ndr7hbcncrlf9nhx5is2b25d13-hello-2.12.1;\
sha256:1mkvday29m2qxg1fnbv8xh9s6151bh8a2xzhh0k86j7lqhyfwibh;226560;\
/nix/store/26xbg1ndr7hbcncrlf9nhx5is2b25d13-hello-2.12.1,\
/nix/store/sl141d1g77wvhr050ah87lcyz2czdxa3-glibc-2.40-36";
    assert_eq!(String::from_utf8(finger_print.clone()).unwrap(), expected_fp);

    let signature = sign_string(&key, &finger_print).unwrap();
    let dalek_sig = ed25519_dalek::Signer::sign(&dalek_sk, &finger_print);
    let expected_sig = format!("cache.example.com-1:{}", b64(&dalek_sig.to_bytes()));
    assert_eq!(String::from_utf8(signature).unwrap(), expected_sig);
}

#[test]
fn test_sign_verify_round_trip() {
    let (key_bytes, _) = test_keypair();
    let key = SigningKey {
        name: b"k".to_vec(),
        key: key_bytes.clone(),
    };
    let msg = b"some message";
    assert_eq!(sign_then_verify(&key, msg), Some(true));

    let sig_line = sign_string(&key, msg).unwrap();
    let sig_b64 = &sig_line[2..];
    let sig = base64::Engine::decode(
        &base64::engine::general_purpose::STANDARD,
        sig_b64,
    )
    .unwrap();
    let pk_arr: [u8; 32] = key_bytes[32..64].try_into().unwrap();
    let vk = ed25519_dalek::VerifyingKey::from_bytes(&pk_arr).unwrap();
    let sig_arr: [u8; 64] = sig[..].try_into().unwrap();
    let dsig = ed25519_dalek::Signature::from_bytes(&sig_arr);
    assert!(ed25519_dalek::Verifier::verify(&vk, msg, &dsig).is_ok());
    let mut tampered = msg.to_vec();
    tampered[0] ^= 1;
    assert!(ed25519_dalek::Verifier::verify(&vk, &tampered, &dsig).is_err());
    let mut bad_sig = sig.clone();
    bad_sig[5] ^= 1;
    let bad_arr: [u8; 64] = bad_sig[..].try_into().unwrap();
    let bad = ed25519_dalek::Signature::from_bytes(&bad_arr);
    assert!(ed25519_dalek::Verifier::verify(&vk, msg, &bad).is_err());
}

#[test]
fn test_parse_secret_key() {
    let (key_bytes, _) = test_keypair();
    let contents = format!("cache.example.com-1:{}\n", b64(&key_bytes));
    let key = parse_secret_key(contents.as_bytes()).unwrap();
    assert_eq!(key.name, b"cache.example.com-1".to_vec());
    assert_eq!(key.key, key_bytes);

    assert!(parse_secret_key(b"no-colon-here").is_err());
    assert!(parse_secret_key(b"name:!!!not-base64!!!").is_err());
    let short = format!("name:{}", b64(&[1, 2, 3]));
    assert!(parse_secret_key(short.as_bytes()).is_err());
}

#[test]
fn test_fingerprint_rejections() {
    let refs_bad = vec![b"/elsewhere/abc".to_vec()];
    let r = fingerprint_path(
        b"/nix/store",
        b"/nix/store/x",
        b"sha256:1mkvday29m2qxg1fnbv8xh9s6151bh8a2xzhh0k86j7lqhyfwibh",
        1,
        &refs_bad,
    );
    assert!(r.is_err());
    let refs: Vec<Vec<u8>> = Vec::new();
    assert!(fingerprint_path(b"/nix/store", b"/other/x", b"sha256:aa", 1, &refs).is_err());
    assert!(fingerprint_path(b"/nix/store", b"/nix/store/x", b"md5:aa", 1, &refs).is_err());
    assert!(fingerprint_path(b"/nix/store", b"/nix/store/x", b"sha256:short", 1, &refs).is_err());
}

#[test]
fn test_nix_base32() {
    assert_eq!(to_nix_base32(&[0xff]), b"7z".to_vec());
    assert_eq!(to_nix_base32(&[0x00]), b"00".to_vec());
    let bytes32: Vec<u8> = (0u8..32).collect();
    assert_eq!(to_nix_base32(&bytes32).len(), 52);
    assert_eq!(convert_base16_to_nix32(b"ff").unwrap(), b"7z".to_vec());
    assert!(convert_base16_to_nix32(b"f").is_err());
    assert!(convert_base16_to_nix32(b"zz").is_err());
    assert!(convert_base16_to_nix32(b"").is_err());
}

#[test]
fn test_hex_round_trip() {
    let data: Vec<u8> = vec![0, 1, 2, 250, 255, 16, 32];
    let enc = hex_encode(&data);
    assert_eq!(enc, b"000102faff1020".to_vec());
    assert_eq!(from_hex(&enc).unwrap(), data);
    assert_eq!(from_hex(b"FF0a").unwrap(), vec![255, 10]);
    assert!(from_hex(b"abc").is_err());
    assert!(from_hex(b"g0").is_err());
    let lens: Vec<usize> = vec![1, 2, 3, 5, 32];
    for n in lens {
        let b: Vec<u8> = (0..n as u8).collect();
        let expected_len = (8 * n - 1) / 5 + 1;
        assert_eq!(to_nix_base32(&b).len(), expected_len);
        assert_eq!(expected_len, (8 * n + 4) / 5);
    }
}

#[test]
fn test_wire_framing() {
    let framed = encode_string(b"hello");
    let mut expected: Vec<u8> = vec![5, 0, 0, 0, 0, 0, 0, 0];
    expected.extend_from_slice(b"hello");
    expected.extend_from_slice(&[0, 0, 0]);
    assert_eq!(framed, expected);
    assert_eq!(framed.len() % 8, 0);

    let sizes: Vec<usize> = vec![0, 1, 7, 8, 9, 13];
    for n in sizes {
        let s: Vec<u8> = vec![b'x'; n];
        let f = encode_string(&s);
        assert_eq!(f.len() % 8, 0);
        assert_eq!(f.len(), 8 + n + alignment(n as u64));
        let (back, end) = parse_string(&f, 0).unwrap();
        assert_eq!(back, s);
        assert_eq!(end, f.len());
    }

    let (x, end) = parse_u64(&[1, 0, 0, 0, 0, 0, 0, 0, 9, 9], 0).unwrap();
    assert_eq!((x, end), (1, 8));
    assert!(parse_u64(&[1, 2, 3], 0).is_err());
    assert!(parse_string(&[5, 0, 0, 0, 0, 0, 0, 0, b'h'], 0).is_err());

    // A frame whose padding is not zero is misaligned and fatal.
    let mut bad = encode_string(b"hello");
    let last = bad.len() - 1;
    bad[last] = 1;
    assert!(parse_string(&bad, 0).is_err());
}

#[test]
fn test_error_status_codes() {
    assert_eq!(CacheError::NotFound.status_code(), 404);
    assert_eq!(CacheError::BadRequest.status_code(), 400);
    assert_eq!(CacheError::RangeNotSatisfiable.status_code(), 416);
    assert_eq!(CacheError::DaemonError.status_code(), 500);
    assert_eq!(CacheError::DaemonProtocol.status_code(), 500);
    assert_eq!(CacheError::IoError.status_code(), 500);
    assert_eq!(CacheError::BadKey.status_code(), 500);
    assert_eq!(CacheError::BadReference.status_code(), 500);
    assert_eq!(CacheError::Internal.status_code(), 500);
}

#[test]
fn test_store_facade() {
    let store = Store::new(b"/nix/store".to_vec(), Some(b"/data/real".to_vec()));
    assert_eq!(
        store.get_real_path(b"/nix/store/abc-x"),
        b"/data/real/abc-x".to_vec()
    );
    assert_eq!(store.get_real_path(b"/tmp/other"), b"/tmp/other".to_vec());
    assert_eq!(store.real_store(), &b"/data/real".to_vec());
    assert_eq!(store.virtual_store(), &b"/nix/store".to_vec());

    let plain = Store::new(b"/nix/store".to_vec(), None);
    assert_eq!(
        plain.get_real_path(b"/nix/store/abc-x"),
        b"/nix/store/abc-x".to_vec()
    );
    assert_eq!(plain.real_store(), &b"/nix/store".to_vec());
    assert_eq!(get_store_dir(), "/nix/store");
    assert_eq!(get_real_store_dir(), "/nix/store");
}

#[test]
fn test_defaults() {
    assert_eq!(default_bind(), "[::]:5000");
    assert_eq!(default_workers(), 4);
    assert_eq!(default_connection_rate(), 256);
    assert_eq!(default_priority(), 30);
    assert_eq!(default_virtual_store(), "/nix/store");
}

#[test]
fn test_build_log_paths() {
    let (plain, compressed) =
        get_build_log(b"/nix/store", b"/nix/store/abcdef-x.drv").unwrap();
    assert_eq!(
        String::from_utf8(plain).unwrap(),
        "/nix/var/log/nix/drvs/ab/cdef-x.drv"
    );
    assert_eq!(
        String::from_utf8(compressed).unwrap(),
        "/nix/var/log/nix/drvs/ab/cdef-x.drv.bz2"
    );
    assert!(get_build_log(b"/nix/store", b"/nix/store/a").is_none());
    assert_eq!(
        bz2_sibling(b"/log/noext"),
        b"/log/noext.drv.bz2".to_vec()
    );
    let long: Vec<u8> = vec![b'a'; 40];
    assert_eq!(query_drv_path(&long), vec![b'a'; 32]);
    assert_eq!(query_drv_path(b"short"), b"short".to_vec());
}

#[test]
fn test_bunzip2() {
    let compressed: Vec<u8> = vec![
        66, 90, 104, 57, 49, 65, 89, 38, 83, 89, 108, 235, 189, 226, 0, 0, 4, 81, 128, 0, 16,
        64, 0, 22, 165, 134, 128, 32, 0, 33, 42, 52, 245, 52, 122, 153, 8, 6, 128, 30, 228, 146,
        4, 116, 120, 146, 141, 30, 24, 40, 45, 8, 162, 254, 46, 228, 138, 112, 161, 32, 217,
        215, 123, 196,
    ];
    let plain = harmonia::buildlog::bunzip2(&compressed).unwrap();
    assert_eq!(plain, b"build log line one\nbuild log line two\n".to_vec());
    assert!(harmonia::buildlog::bunzip2(b"not a bzip2 stream").is_none());
}

#[test]
fn test_log_encoding_decision() {
    assert!(matches!(
        plan_log_response(true, b"gzip, bzip2, br"),
        LogEncoding::RawBzip2
    ));
    assert!(matches!(
        plan_log_response(true, b"gzip, br"),
        LogEncoding::Decompress
    ));
    assert!(matches!(
        plan_log_response(false, b"bzip2"),
        LogEncoding::Identity
    ));
}

#[test]
fn test_text_utils() {
    assert!(starts_with(b"/nix/store/x", b"/nix/store"));
    assert!(!starts_with(b"/nix/st", b"/nix/store"));
    assert_eq!(find_subslice(b"hello world", b"o w"), Some(4));
    assert_eq!(find_subslice(b"hello", b"xyz"), None);
    assert!(contains_subslice(b"a,bzip2,c", b"bzip2"));
    assert_eq!(u64_to_dec(0), b"0".to_vec());
    assert_eq!(u64_to_dec(226560), b"226560".to_vec());
    assert_eq!(u64_to_dec(u64::MAX), b"18446744073709551615".to_vec());
    let parts = vec![b"a".to_vec(), b"bc".to_vec(), b"d".to_vec()];
    assert_eq!(join(&parts, b','), b"a,bc,d".to_vec());
    assert_eq!(trim(b"  x y\n\t"), b"x y".to_vec());
    assert_eq!(trim(b""), b"".to_vec());
}
