use harmonia::daemon::{
    accepts_daemon_version, check_magic, handshake_hello, handshake_reply, msg_from_u64,
    opcode_from_u64, opcode_num, op_request, parse_is_valid_path_response,
    parse_path_from_hash_part_response, parse_path_info_response, parse_stderr_item,
    session_recovers, stderr_step, version_from_u64, MsgTag, OpCode, ProtocolVersion,
    SessionState, StderrItem, StderrStep,
};
use harmonia::nar::{
    check_nar_hash, dump_path, insert_entry, select_outhash, strip_case_hack_suffix,
    ContentsDump, NarEntry, NarNode, NarWalker,
};
use harmonia::narinfo::{extract_filename, format_narinfo_json, format_narinfo_txt, query_narinfo};
use harmonia::narlist::get_nar_list;
use harmonia::range::{plan_range, window_slice, RangeDecision};
use harmonia::wire::{encode_string_into, encode_string_list_into, encode_u64_into};
use harmonia::CacheError;

fn frame(s: &[u8]) -> Vec<u8> {
    let mut out = (s.len() as u64).to_le_bytes().to_vec();
    out.extend_from_slice(s);
    let pad = (8 - s.len() % 8) % 8;
    out.extend_from_slice(&vec![0u8; pad]);
    out
}

fn sample_tree() -> NarNode {
    NarNode::Directory {
        entries: vec![
            NarEntry {
                name: b"file".to_vec(),
                node: NarNode::Regular {
                    executable: false,
                    contents: b"somecontent".to_vec(),
                },
            },
            NarEntry {
                name: b"some_dir".to_vec(),
                node: NarNode::Directory {
                    entries: vec![NarEntry {
                        name: b"executable".to_vec(),
                        node: NarNode::Regular {
                            executable: true,
                            contents: b"somescript".to_vec(),
                        },
                    }],
                },
            },
            NarEntry {
                name: b"some_empty_dir".to_vec(),
                node: NarNode::Directory { entries: vec![] },
            },
            NarEntry {
                name: b"symlink".to_vec(),
                node: NarNode::Symlink {
                    target: b"sometarget".to_vec(),
                },
            },
        ],
    }
}

fn expected_entry(name: &[u8], node_bytes: &[u8]) -> Vec<u8> {
    let mut out = frame(b"entry");
    out.extend_from_slice(&frame(b"("));
    out.extend_from_slice(&frame(b"name"));
    out.extend_from_slice(&frame(name));
    out.extend_from_slice(&frame(b"node"));
    out.extend_from_slice(node_bytes);
    out.extend_from_slice(&frame(b")"));
    out
}

fn expected_regular(executable: bool, contents: &[u8]) -> Vec<u8> {
    let mut out = frame(b"(");
    out.extend_from_slice(&frame(b"type"));
    out.extend_from_slice(&frame(b"regular"));
    if executable {
        out.extend_from_slice(&frame(b"executable"));
        out.extend_from_slice(&frame(b""));
    }
    out.extend_from_slice(&frame(b"contents"));
    out.extend_from_slice(&frame(contents));
    out.extend_from_slice(&frame(b")"));
    out
}

#[test]
fn test_dump_store() {
    let nar_dump = dump_path(&sample_tree());

    // The stream opens with the framed archive magic.
    let mut magic: Vec<u8> = vec![0x0d, 0, 0, 0, 0, 0, 0, 0];
    magic.extend_from_slice(b"nix-archive-1");
    magic.extend_from_slice(&[0, 0, 0]);
    assert_eq!(&nar_dump[0..24], &magic[..]);

    let mut expected = frame(b"nix-archive-1");
    expected.extend_from_slice(&frame(b"("));
    expected.extend_from_slice(&frame(b"type"));
    expected.extend_from_slice(&frame(b"directory"));
    expected.extend_from_slice(&expected_entry(
        b"file",
        &expected_regular(false, b"somecontent"),
    ));
    let mut some_dir = frame(b"(");
    some_dir.extend_from_slice(&frame(b"type"));
    some_dir.extend_from_slice(&frame(b"directory"));
    some_dir.extend_from_slice(&expected_entry(
        b"executable",
        &expected_regular(true, b"somescript"),
    ));
    some_dir.extend_from_slice(&frame(b")"));
    expected.extend_from_slice(&expected_entry(b"some_dir", &some_dir));
    let mut empty_dir = frame(b"(");
    empty_dir.extend_from_slice(&frame(b"type"));
    empty_dir.extend_from_slice(&frame(b"directory"));
    empty_dir.extend_from_slice(&frame(b")"));
    expected.extend_from_slice(&expected_entry(b"some_empty_dir", &empty_dir));
    let mut symlink = frame(b"(");
    symlink.extend_from_slice(&frame(b"type"));
    symlink.extend_from_slice(&frame(b"symlink"));
    symlink.extend_from_slice(&frame(b"target"));
    symlink.extend_from_slice(&frame(b"sometarget"));
    symlink.extend_from_slice(&frame(b")"));
    expected.extend_from_slice(&expected_entry(b"symlink", &symlink));
    expected.extend_from_slice(&frame(b")"));

    assert_eq!(nar_dump, expected);

    // Determinism: a second invocation yields the identical bytes.
    assert_eq!(dump_path(&sample_tree()), nar_dump);
}

#[test]
fn test_walker_streams_archive() {
    // The explicit-stack walker emits the same bytes as the one-shot
    // serializer, chunk by chunk.
    let mut walker = NarWalker::new(sample_tree());
    let mut streamed: Vec<u8> = Vec::new();
    let mut steps: usize = 0;
    while let Some(chunk) = walker.step() {
        streamed.extend_from_slice(&chunk);
        steps += 1;
        assert!(steps < 1000);
    }
    assert_eq!(streamed, dump_path(&sample_tree()));
    assert!(steps > 5);
}

#[test]
fn test_case_hack_transparency() {
    assert_eq!(
        strip_case_hack_suffix(b"foo~nix~case~hack~1"),
        b"foo".to_vec()
    );
    assert_eq!(strip_case_hack_suffix(b"plain"), b"plain".to_vec());

    let hacked = NarNode::Directory {
        entries: vec![NarEntry {
            name: b"file~nix~case~hack~1".to_vec(),
            node: NarNode::Regular {
                executable: false,
                contents: b"x".to_vec(),
            },
        }],
    };
    let plain = NarNode::Directory {
        entries: vec![NarEntry {
            name: b"file".to_vec(),
            node: NarNode::Regular {
                executable: false,
                contents: b"x".to_vec(),
            },
        }],
    };
    assert_eq!(dump_path(&hacked), dump_path(&plain));
}

#[test]
fn test_insert_entry_ordering() {
    let mut entries: Vec<NarEntry> = Vec::new();
    let names: Vec<&[u8]> = vec![b"zeta", b"alpha", b"mid"];
    for n in names {
        insert_entry(
            &mut entries,
            NarEntry {
                name: n.to_vec(),
                node: NarNode::Symlink {
                    target: b"t".to_vec(),
                },
            },
        );
    }
    let got: Vec<Vec<u8>> = entries.iter().map(|e| e.name.clone()).collect();
    assert_eq!(got, vec![b"alpha".to_vec(), b"mid".to_vec(), b"zeta".to_vec()]);

    // A sibling with the same stripped name replaces the earlier one.
    insert_entry(
        &mut entries,
        NarEntry {
            name: b"mid~nix~case~hack~1".to_vec(),
            node: NarNode::Symlink {
                target: b"u".to_vec(),
            },
        },
    );
    assert_eq!(entries.len(), 3);
    assert_eq!(entries[1].name, b"mid~nix~case~hack~1".to_vec());
}

#[test]
fn test_get_nar_list() {
    let json = get_nar_list(&sample_tree());
    let expected = "{\"version\":1,\"root\":{\"type\":\"directory\",\"entries\":{\
\"file\":{\"type\":\"regular\",\"narOffset\":null,\"size\":11},\
\"some_dir\":{\"type\":\"directory\",\"entries\":{\
\"executable\":{\"type\":\"regular\",\"narOffset\":null,\"size\":10,\"executable\":true}}},\
\"some_empty_dir\":{\"type\":\"directory\",\"entries\":{}},\
\"symlink\":{\"type\":\"symlink\",\"target\":\"sometarget\"}}}}";
    assert_eq!(String::from_utf8(json).unwrap(), expected);

    let odd = NarNode::Symlink {
        target: b"a\"b\\c\nd".to_vec(),
    };
    let json2 = get_nar_list(&odd);
    assert_eq!(
        String::from_utf8(json2).unwrap(),
        "{\"version\":1,\"root\":{\"type\":\"symlink\",\"target\":\"a\\\"b\\\\c\\nd\"}}"
    );
}

#[test]
fn test_contents_dump_accounting() {
    let mut d = ContentsDump::new(11);
    assert!(d.feed(5).is_ok());
    assert!(d.feed(6).is_ok());
    assert_eq!(d.finish().unwrap(), 5);

    let mut over = ContentsDump::new(4);
    assert!(over.feed(5).is_err());

    let short = ContentsDump::new(10);
    assert!(short.finish().is_err());

    let mut aligned = ContentsDump::new(16);
    assert!(aligned.feed(16).is_ok());
    assert_eq!(aligned.finish().unwrap(), 0);
}

#[test]
fn test_range_slicing() {
    // A range request for the first 16 bytes of a larger archive.
    match plan_range(Some("bytes=0-15"), 100) {
        RangeDecision::Partial { offset, length } => {
            assert_eq!((offset, length), (0, 16));
        }
        _ => panic!("expected a partial range"),
    }
    assert!(matches!(plan_range(None, 100), RangeDecision::Whole));
    assert!(matches!(
        plan_range(Some("bytes=200-300"), 100),
        RangeDecision::NotSatisfiable
    ));
    assert!(matches!(
        plan_range(Some("bytes="), 100),
        RangeDecision::NotSatisfiable
    ));

    // Slicing chunk by chunk equals slicing the whole stream.
    let stream: Vec<u8> = (0u8..100).collect();
    let mut sent: u64 = 0;
    let mut out: Vec<u8> = Vec::new();
    for chunk in stream.chunks(7) {
        out.extend_from_slice(&window_slice(chunk, sent, 13, 41));
        sent += chunk.len() as u64;
    }
    assert_eq!(&out[..], &stream[13..54]);

    let mut sent2: u64 = 0;
    let mut first16: Vec<u8> = Vec::new();
    for chunk in stream.chunks(7) {
        first16.extend_from_slice(&window_slice(chunk, sent2, 0, 16));
        sent2 += chunk.len() as u64;
    }
    assert_eq!(&first16[..], &stream[0..16]);
}

#[test]
fn test_nix_daemon() {
    // Handshake pieces.
    assert_eq!(handshake_hello(), 0x6e697863u64.to_le_bytes().to_vec());
    assert!(check_magic(0x6478696f));
    assert!(!check_magic(0x6e697863));
    assert!(accepts_daemon_version(0x126));
    assert!(accepts_daemon_version(0x200));
    assert!(!accepts_daemon_version(0x125));
    assert_eq!(
        version_from_u64(0x126),
        ProtocolVersion { major: 1, minor: 38 }
    );
    let mut reply = 0x126u64.to_le_bytes().to_vec();
    reply.extend_from_slice(&0u64.to_le_bytes());
    reply.extend_from_slice(&0u64.to_le_bytes());
    assert_eq!(handshake_reply(), reply);

    // Opcodes.
    assert_eq!(opcode_num(OpCode::IsValidPath), 1);
    assert_eq!(opcode_num(OpCode::QueryPathInfo), 26);
    assert_eq!(opcode_num(OpCode::QueryPathFromHashPart), 29);
    assert_eq!(opcode_from_u64(29), Some(OpCode::QueryPathFromHashPart));
    assert_eq!(opcode_from_u64(2), None);
    assert_eq!(opcode_from_u64(15), None);
    assert_eq!(opcode_from_u64(48), None);
    let req = op_request(OpCode::IsValidPath, b"/nix/store/x");
    let mut expected_req = 1u64.to_le_bytes().to_vec();
    expected_req.extend_from_slice(&frame(b"/nix/store/x"));
    assert_eq!(req, expected_req);

    // A daemon replying 0 means the path is invalid.
    let zero = 0u64.to_le_bytes();
    let (valid, _) = parse_is_valid_path_response(&zero, 0).unwrap();
    assert!(!valid);
    let one = 1u64.to_le_bytes();
    let (valid1, _) = parse_is_valid_path_response(&one, 0).unwrap();
    assert!(valid1);

    // An empty string reply means the hash part is unknown.
    let empty = frame(b"");
    let (none, _) = parse_path_from_hash_part_response(&empty, 0).unwrap();
    assert_eq!(none, None);
    let some = frame(b"/nix/store/s5lqjivysl2s674wwbishk638hkw8jqp-x");
    let (found, _) = parse_path_from_hash_part_response(&some, 0).unwrap();
    assert_eq!(
        found,
        Some(b"/nix/store/s5lqjivysl2s674wwbishk638hkw8jqp-x".to_vec())
    );
}

#[test]
fn test_query_path_info_parsing() {
    let mut buf: Vec<u8> = Vec::new();
    encode_u64_into(&mut buf, 1);
    encode_string_into(&mut buf, b"/nix/store/d-deriver.drv");
    encode_string_into(&mut buf, b"aa00");
    let refs = vec![b"/nix/store/r1".to_vec(), b"/nix/store/r2".to_vec()];
    encode_string_list_into(&mut buf, &refs);
    encode_u64_into(&mut buf, 1700000000);
    encode_u64_into(&mut buf, 226560);
    encode_u64_into(&mut buf, 0);
    let sigs = vec![b"k:abc".to_vec()];
    encode_string_list_into(&mut buf, &sigs);
    encode_string_into(&mut buf, b"");

    let (info, end) = parse_path_info_response(&buf, 0).unwrap();
    assert_eq!(end, buf.len());
    let info = info.unwrap();
    assert_eq!(info.deriver, b"/nix/store/d-deriver.drv".to_vec());
    assert_eq!(info.hash, b"aa00".to_vec());
    assert_eq!(info.references, refs);
    assert_eq!(info.registration_time, 1700000000);
    assert_eq!(info.nar_size, 226560);
    assert!(!info.ultimate);
    assert_eq!(info.sigs, sigs);
    assert_eq!(info.content_address, None);

    let absent = 0u64.to_le_bytes();
    let (none, _) = parse_path_info_response(&absent, 0).unwrap();
    assert!(none.is_none());

    assert!(parse_path_info_response(&buf[0..10], 0).is_err());
}

#[test]
fn test_stderr_channel() {
    let last = 0x616c7473u64.to_le_bytes();
    let (item, end) = parse_stderr_item(&last, 0).unwrap();
    assert!(matches!(item, StderrItem::Last));
    assert_eq!(end, 8);
    assert!(matches!(stderr_step(&item), Ok(StderrStep::Finished)));

    let mut next: Vec<u8> = 0x6f6c6d67u64.to_le_bytes().to_vec();
    next.extend_from_slice(&frame(b"building..."));
    let (item2, _) = parse_stderr_item(&next, 0).unwrap();
    match &item2 {
        StderrItem::Next(s) => assert_eq!(s, &b"building...".to_vec()),
        _ => panic!("expected a log line"),
    }
    assert!(matches!(stderr_step(&item2), Ok(StderrStep::Forward)));

    let mut err: Vec<u8> = 0x63787470u64.to_le_bytes().to_vec();
    err.extend_from_slice(&frame(b"Error"));
    err.extend_from_slice(&0u64.to_le_bytes());
    err.extend_from_slice(&frame(b"name"));
    err.extend_from_slice(&frame(b"build failed"));
    err.extend_from_slice(&0u64.to_le_bytes());
    err.extend_from_slice(&0u64.to_le_bytes());
    let (item3, end3) = parse_stderr_item(&err, 0).unwrap();
    assert_eq!(end3, err.len());
    match &item3 {
        StderrItem::ErrorMsg(e) => assert_eq!(e.message, b"build failed".to_vec()),
        _ => panic!("expected a daemon error"),
    }
    assert_eq!(stderr_step(&item3), Err(CacheError::DaemonError));

    let unknown = 0x12345678u64.to_le_bytes();
    assert!(parse_stderr_item(&unknown, 0).is_err());

    assert!(msg_from_u64(0x64617416) == Some(MsgTag::Write));
    assert!(msg_from_u64(42).is_none());
}

#[test]
fn test_session_recovery() {
    let mut s = SessionState::new();
    assert!(s.needs_dial());
    assert!(s.on_handshake(0x126, false).is_ok());
    assert!(!s.needs_dial());
    // Any I/O failure invalidates the session; the next operation
    // dials afresh and succeeds.
    s.on_error();
    assert!(s.needs_dial());
    assert!(session_recovers(&mut s, 0x126, true));
    assert!(!s.needs_dial());
    let mut low = SessionState::new();
    assert!(low.on_handshake(0x100, false).is_err());
    assert!(low.needs_dial());
}

#[test]
fn test_nar_hash_check() {
    // base-32 of 0xff is "7z": the request must name exactly that.
    assert!(check_nar_hash(b"7z", b"ff").is_ok());
    assert_eq!(check_nar_hash(b"00", b"ff"), Err(CacheError::Internal));
    assert_eq!(check_nar_hash(b"7z", b"zz"), Err(CacheError::Internal));

    let q = b"q".to_vec();
    let p = b"p".to_vec();
    assert_eq!(select_outhash(Some(&q), Some(&p)), Some(&q));
    assert_eq!(select_outhash(None, Some(&p)), Some(&p));
    assert_eq!(select_outhash(None, None), None);
}

#[test]
fn test_narinfo_assembly() {
    let hex_hash: Vec<u8> = b"aa".repeat(32);
    let info = harmonia::daemon::ValidPathInfo {
        deriver: Vec::new(),
        hash: hex_hash.clone(),
        references: vec![
            b"/nix/store/aaa-foo".to_vec(),
            b"/nix/store/bbb-bar".to_vec(),
        ],
        registration_time: 0,
        nar_size: 226560,
        ultimate: false,
        sigs: vec![b"cache:sig".to_vec()],
        content_address: None,
    };
    let keys: Vec<harmonia::config::SigningKey> = Vec::new();
    let narinfo = query_narinfo(
        b"/nix/store",
        b"/nix/store/aaa-foo",
        b"aaa",
        &keys,
        &info,
    )
    .unwrap();
    let nix32 = harmonia::base32::convert_base16_to_nix32(&hex_hash).unwrap();
    let nix32s = String::from_utf8(nix32.clone()).unwrap();
    assert_eq!(
        String::from_utf8(narinfo.url.clone()).unwrap(),
        format!("nar/{}.nar?hash=aaa", nix32s)
    );
    assert_eq!(
        String::from_utf8(narinfo.nar_hash.clone()).unwrap(),
        format!("sha256:{}", nix32s)
    );
    assert_eq!(
        narinfo.references,
        vec![b"aaa-foo".to_vec(), b"bbb-bar".to_vec()]
    );
    assert_eq!(narinfo.deriver, None);
    assert_eq!(narinfo.sigs, vec![b"cache:sig".to_vec()]);

    let txt = format_narinfo_txt(&narinfo);
    let expected = format!(
        "StorePath: /nix/store/aaa-foo\nURL: nar/{h}.nar?hash=aaa\nCompression: none\n\
FileHash: sha256:{h}\nFileSize: 226560\nNarHash: sha256:{h}\nNarSize: 226560\n\
References: aaa-foo bbb-bar\nSig: cache:sig\n",
        h = nix32s
    );
    assert_eq!(String::from_utf8(txt).unwrap(), expected);

    assert_eq!(
        extract_filename(b"/nix/store/aaa-foo"),
        Some(b"aaa-foo".to_vec())
    );
    assert_eq!(extract_filename(b"trailing/"), None);

    let json = format_narinfo_json(&narinfo);
    let expected_json = format!(
        "{{\"store_path\":\"/nix/store/aaa-foo\",\"url\":\"nar/{h}.nar?hash=aaa\",\"compression\":\"none\",\"nar_hash\":\"sha256:{h}\",\"nar_size\":226560,\"references\":[\"aaa-foo\",\"bbb-bar\"],\"deriver\":null,\"sigs\":[\"cache:sig\"],\"ca\":null}}",
        h = nix32s
    );
    assert_eq!(String::from_utf8(json).unwrap(), expected_json);
}

#[test]
fn test_narinfo_signed() {
    let seed: [u8; 32] = [9; 32];
    let sk = ed25519_dalek::SigningKey::from_bytes(&seed);
    let keys = vec![harmonia::config::SigningKey {
        name: b"cache.test-1".to_vec(),
        key: sk.to_keypair_bytes().to_vec(),
    }];
    let hex_hash: Vec<u8> = b"ab".repeat(32);
    let info = harmonia::daemon::ValidPathInfo {
        deriver: b"/nix/store/ddd-d.drv".to_vec(),
        hash: hex_hash,
        references: vec![b"/nix/store/aaa-foo".to_vec()],
        registration_time: 0,
        nar_size: 77,
        ultimate: false,
        sigs: Vec::new(),
        content_address: Some(b"fixed:r:sha256:xyz".to_vec()),
    };
    let narinfo = query_narinfo(
        b"/nix/store",
        b"/nix/store/aaa-foo",
        b"aaa",
        &keys,
        &info,
    )
    .unwrap();
    assert_eq!(narinfo.sigs.len(), 1);
    let sig_line = String::from_utf8(narinfo.sigs[0].clone()).unwrap();
    assert!(sig_line.starts_with("cache.test-1:"));
    let sig = base64::Engine::decode(
        &base64::engine::general_purpose::STANDARD,
        sig_line.split_once(':').unwrap().1,
    )
    .unwrap();
    // The signature verifies over the fingerprint of the descriptor.
    let nix32 = harmonia::base32::convert_base16_to_nix32(&b"ab".repeat(32)).unwrap();
    let mut nar_hash = b"sha256:".to_vec();
    nar_hash.extend_from_slice(&nix32);
    let refs = vec![b"/nix/store/aaa-foo".to_vec()];
    let fp = harmonia::signing::fingerprint_path(
        b"/nix/store",
        b"/nix/store/aaa-foo",
        &nar_hash,
        77,
        &refs,
    )
    .unwrap()
    .unwrap();
    let sig_arr: [u8; 64] = sig[..].try_into().unwrap();
    let dsig = ed25519_dalek::Signature::from_bytes(&sig_arr);
    assert!(ed25519_dalek::Verifier::verify(&sk.verifying_key(), &fp, &dsig).is_ok());
    assert_eq!(narinfo.deriver, Some(b"/nix/store/ddd-d.drv".to_vec()));
    assert_eq!(narinfo.ca, Some(b"fixed:r:sha256:xyz".to_vec()));
}
