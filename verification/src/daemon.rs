//! The privileged-daemon client's decision logic: the versioned
//! little-endian binary protocol spoken over the daemon's Unix
//! socket. Everything here is pure: request bytes are built, response
//! bytes are parsed, and the connection I/O lives outside the
//! library.

use vstd::bytes::{lemma_auto_spec_u64_to_from_le_bytes, spec_u64_to_le_bytes};
use vstd::prelude::*;

use crate::wire::{
    encode_string_into, encode_string_list_into, encode_u64_into, parse_string, parse_string_list,
    parse_u64, spec_framed, spec_framed_list,
};
use crate::CacheError;

verus! {

/// Magic the client writes first.
pub const WORKER_MAGIC_1: u64 = 0x6e697863;

/// Magic the daemon must answer with.
pub const WORKER_MAGIC_2: u64 = 0x6478696f;

/// A protocol version: major in the high byte, minor in the low byte.
#[derive(PartialEq, Eq, Structural, Clone, Copy, Debug)]
pub struct ProtocolVersion {
    pub major: u8,
    pub minor: u8,
}

/// The version a u64 on the wire denotes.
pub open spec fn spec_version_of(x: u64) -> ProtocolVersion {
    ProtocolVersion { major: ((x >> 8) & 0xff) as u8, minor: (x & 0xff) as u8 }
}

/// The u64 a version is sent as.
pub open spec fn spec_version_num(v: ProtocolVersion) -> u64 {
    ((v.major as u64) << 8) | (v.minor as u64)
}

/// Decodes a version from the wire.
pub fn version_from_u64(x: u64) -> (r: ProtocolVersion)
    ensures
        r == spec_version_of(x),
{
    ProtocolVersion { major: ((x >> 8) & 0xff) as u8, minor: (x & 0xff) as u8 }
}

/// Encodes a version for the wire.
pub fn version_to_u64(v: ProtocolVersion) -> (r: u64)
    ensures
        r == spec_version_num(v),
{
    ((v.major as u64) << 8) | (v.minor as u64)
}

/// The least daemon version the client accepts, major 1 minor 38.
pub fn minimum_protocol_version() -> (r: ProtocolVersion)
    ensures
        r == (ProtocolVersion { major: 1, minor: 38 }),
{
    ProtocolVersion { major: 1, minor: 38 }
}

/// The version the client announces: the same.
pub fn client_version() -> (r: ProtocolVersion)
    ensures
        r == (ProtocolVersion { major: 1, minor: 38 }),
{
    ProtocolVersion { major: 1, minor: 38 }
}

/// The operations of the daemon protocol. The catalog is fixed;
/// opcodes this server never sends must still be recognized.
#[derive(PartialEq, Eq, Structural, Clone, Copy, Debug)]
pub enum OpCode {
    IsValidPath,
    HasSubstitutes,
    QueryPathHash,
    QueryReferences,
    QueryReferrers,
    AddToStore,
    AddTextToStore,
    BuildPaths,
    EnsurePath,
    AddTempRoot,
    AddIndirectRoot,
    SyncWithGC,
    FindRoots,
    ExportPath,
    QueryDeriver,
    SetOptions,
    CollectGarbage,
    QuerySubstitutablePathInfo,
    QueryDerivationOutputs,
    QueryAllValidPaths,
    QueryFailedPaths,
    ClearFailedPaths,
    QueryPathInfo,
    ImportPaths,
    QueryDerivationOutputNames,
    QueryPathFromHashPart,
    QuerySubstitutablePathInfos,
    QueryValidPaths,
    QuerySubstitutablePaths,
    QueryValidDerivers,
    OptimiseStore,
    VerifyStore,
    BuildDerivation,
    AddSignatures,
    NarFromPath,
    AddToStoreNar,
    QueryMissing,
    QueryDerivationOutputMap,
    RegisterDrvOutput,
    QueryRealisation,
    AddMultipleToStore,
    AddBuildLog,
    BuildPathsWithResults,
    AddPermRoot,
}

/// The number each operation is sent as.
pub open spec fn spec_opcode_num(op: OpCode) -> u64 {
    match op {
        OpCode::IsValidPath => 1,
        OpCode::HasSubstitutes => 3,
        OpCode::QueryPathHash => 4,
        OpCode::QueryReferences => 5,
        OpCode::QueryReferrers => 6,
        OpCode::AddToStore => 7,
        OpCode::AddTextToStore => 8,
        OpCode::BuildPaths => 9,
        OpCode::EnsurePath => 10,
        OpCode::AddTempRoot => 11,
        OpCode::AddIndirectRoot => 12,
        OpCode::SyncWithGC => 13,
        OpCode::FindRoots => 14,
        OpCode::ExportPath => 16,
        OpCode::QueryDeriver => 18,
        OpCode::SetOptions => 19,
        OpCode::CollectGarbage => 20,
        OpCode::QuerySubstitutablePathInfo => 21,
        OpCode::QueryDerivationOutputs => 22,
        OpCode::QueryAllValidPaths => 23,
        OpCode::QueryFailedPaths => 24,
        OpCode::ClearFailedPaths => 25,
        OpCode::QueryPathInfo => 26,
        OpCode::ImportPaths => 27,
        OpCode::QueryDerivationOutputNames => 28,
        OpCode::QueryPathFromHashPart => 29,
        OpCode::QuerySubstitutablePathInfos => 30,
        OpCode::QueryValidPaths => 31,
        OpCode::QuerySubstitutablePaths => 32,
        OpCode::QueryValidDerivers => 33,
        OpCode::OptimiseStore => 34,
        OpCode::VerifyStore => 35,
        OpCode::BuildDerivation => 36,
        OpCode::AddSignatures => 37,
        OpCode::NarFromPath => 38,
        OpCode::AddToStoreNar => 39,
        OpCode::QueryMissing => 40,
        OpCode::QueryDerivationOutputMap => 41,
        OpCode::RegisterDrvOutput => 42,
        OpCode::QueryRealisation => 43,
        OpCode::AddMultipleToStore => 44,
        OpCode::AddBuildLog => 45,
        OpCode::BuildPathsWithResults => 46,
        OpCode::AddPermRoot => 47,
    }
}

/// The number an operation is sent as.
pub fn opcode_num(op: OpCode) -> (r: u64)
    ensures
        r == spec_opcode_num(op),
{
    match op {
        OpCode::IsValidPath => 1,
        OpCode::HasSubstitutes => 3,
        OpCode::QueryPathHash => 4,
        OpCode::QueryReferences => 5,
        OpCode::QueryReferrers => 6,
        OpCode::AddToStore => 7,
        OpCode::AddTextToStore => 8,
        OpCode::BuildPaths => 9,
        OpCode::EnsurePath => 10,
        OpCode::AddTempRoot => 11,
        OpCode::AddIndirectRoot => 12,
        OpCode::SyncWithGC => 13,
        OpCode::FindRoots => 14,
        OpCode::ExportPath => 16,
        OpCode::QueryDeriver => 18,
        OpCode::SetOptions => 19,
        OpCode::CollectGarbage => 20,
        OpCode::QuerySubstitutablePathInfo => 21,
        OpCode::QueryDerivationOutputs => 22,
        OpCode::QueryAllValidPaths => 23,
        OpCode::QueryFailedPaths => 24,
        OpCode::ClearFailedPaths => 25,
        OpCode::QueryPathInfo => 26,
        OpCode::ImportPaths => 27,
        OpCode::QueryDerivationOutputNames => 28,
        OpCode::QueryPathFromHashPart => 29,
        OpCode::QuerySubstitutablePathInfos => 30,
        OpCode::QueryValidPaths => 31,
        OpCode::QuerySubstitutablePaths => 32,
        OpCode::QueryValidDerivers => 33,
        OpCode::OptimiseStore => 34,
        OpCode::VerifyStore => 35,
        OpCode::BuildDerivation => 36,
        OpCode::AddSignatures => 37,
        OpCode::NarFromPath => 38,
        OpCode::AddToStoreNar => 39,
        OpCode::QueryMissing => 40,
        OpCode::QueryDerivationOutputMap => 41,
        OpCode::RegisterDrvOutput => 42,
        OpCode::QueryRealisation => 43,
        OpCode::AddMultipleToStore => 44,
        OpCode::AddBuildLog => 45,
        OpCode::BuildPathsWithResults => 46,
        OpCode::AddPermRoot => 47,
    }
}

/// Recognizes an opcode number; every number outside the catalog is
/// refused.
pub fn opcode_from_u64(x: u64) -> (r: Option<OpCode>)
    ensures
        match r {
            Some(op) => spec_opcode_num(op) == x,
            None => forall|op: OpCode| spec_opcode_num(op) != x,
        },
{
    match x {
        1 => Some(OpCode::IsValidPath),
        3 => Some(OpCode::HasSubstitutes),
        4 => Some(OpCode::QueryPathHash),
        5 => Some(OpCode::QueryReferences),
        6 => Some(OpCode::QueryReferrers),
        7 => Some(OpCode::AddToStore),
        8 => Some(OpCode::AddTextToStore),
        9 => Some(OpCode::BuildPaths),
        10 => Some(OpCode::EnsurePath),
        11 => Some(OpCode::AddTempRoot),
        12 => Some(OpCode::AddIndirectRoot),
        13 => Some(OpCode::SyncWithGC),
        14 => Some(OpCode::FindRoots),
        16 => Some(OpCode::ExportPath),
        18 => Some(OpCode::QueryDeriver),
        19 => Some(OpCode::SetOptions),
        20 => Some(OpCode::CollectGarbage),
        21 => Some(OpCode::QuerySubstitutablePathInfo),
        22 => Some(OpCode::QueryDerivationOutputs),
        23 => Some(OpCode::QueryAllValidPaths),
        24 => Some(OpCode::QueryFailedPaths),
        25 => Some(OpCode::ClearFailedPaths),
        26 => Some(OpCode::QueryPathInfo),
        27 => Some(OpCode::ImportPaths),
        28 => Some(OpCode::QueryDerivationOutputNames),
        29 => Some(OpCode::QueryPathFromHashPart),
        30 => Some(OpCode::QuerySubstitutablePathInfos),
        31 => Some(OpCode::QueryValidPaths),
        32 => Some(OpCode::QuerySubstitutablePaths),
        33 => Some(OpCode::QueryValidDerivers),
        34 => Some(OpCode::OptimiseStore),
        35 => Some(OpCode::VerifyStore),
        36 => Some(OpCode::BuildDerivation),
        37 => Some(OpCode::AddSignatures),
        38 => Some(OpCode::NarFromPath),
        39 => Some(OpCode::AddToStoreNar),
        40 => Some(OpCode::QueryMissing),
        41 => Some(OpCode::QueryDerivationOutputMap),
        42 => Some(OpCode::RegisterDrvOutput),
        43 => Some(OpCode::QueryRealisation),
        44 => Some(OpCode::AddMultipleToStore),
        45 => Some(OpCode::AddBuildLog),
        46 => Some(OpCode::BuildPathsWithResults),
        47 => Some(OpCode::AddPermRoot),
        _ => {
            proof {
                assert forall|op: OpCode| spec_opcode_num(op) != x by {
                    match op {
                        OpCode::IsValidPath => {},
                        _ => {},
                    }
                }
            }
            None
        },
    }
}

/// The framed logger messages of the side-channel, by tag.
#[derive(PartialEq, Eq, Structural, Clone, Copy, Debug)]
pub enum MsgTag {
    Write,
    Error,
    Next,
    StartActivity,
    StopActivity,
    ResultMsg,
    Last,
}

/// The number each logger tag arrives as.
pub open spec fn spec_msg_num(m: MsgTag) -> u64 {
    match m {
        MsgTag::Write => 0x64617416,
        MsgTag::Error => 0x63787470,
        MsgTag::Next => 0x6f6c6d67,
        MsgTag::StartActivity => 0x53545254,
        MsgTag::StopActivity => 0x53544f50,
        MsgTag::ResultMsg => 0x52534c54,
        MsgTag::Last => 0x616c7473,
    }
}

/// Recognizes a logger tag; an unknown tag is fatal for the session.
pub fn msg_from_u64(x: u64) -> (r: Option<MsgTag>)
    ensures
        match r {
            Some(m) => spec_msg_num(m) == x,
            None => forall|m: MsgTag| spec_msg_num(m) != x,
        },
{
    if x == 0x64617416 {
        Some(MsgTag::Write)
    } else if x == 0x63787470 {
        Some(MsgTag::Error)
    } else if x == 0x6f6c6d67 {
        Some(MsgTag::Next)
    } else if x == 0x53545254 {
        Some(MsgTag::StartActivity)
    } else if x == 0x53544f50 {
        Some(MsgTag::StopActivity)
    } else if x == 0x52534c54 {
        Some(MsgTag::ResultMsg)
    } else if x == 0x616c7473 {
        Some(MsgTag::Last)
    } else {
        proof {
            assert forall|m: MsgTag| spec_msg_num(m) != x by {
                match m {
                    MsgTag::Write => {},
                    _ => {},
                }
            }
        }
        None
    }
}

/// The first bytes of the handshake: the client's magic.
pub fn handshake_hello() -> (r: Vec<u8>)
    ensures
        r@ == spec_u64_to_le_bytes(WORKER_MAGIC_1),
{
    let mut out: Vec<u8> = Vec::new();
    encode_u64_into(&mut out, WORKER_MAGIC_1);
    proof {
        assert(out@ =~= spec_u64_to_le_bytes(WORKER_MAGIC_1));
    }
    out
}

/// Whether the daemon's answering magic is the expected one.
pub fn check_magic(m: u64) -> (r: bool)
    ensures
        r == (m == WORKER_MAGIC_2),
{
    m == WORKER_MAGIC_2
}

/// Whether the daemon's protocol version is acceptable: at least the
/// minimum, compared as raw numbers as the protocol does.
pub fn accepts_daemon_version(v: u64) -> (r: bool)
    ensures
        r == (v >= spec_version_num(ProtocolVersion { major: 1, minor: 38 })),
{
    let min = version_to_u64(minimum_protocol_version());
    v >= min
}

/// The client's answer once the daemon's version is accepted: its own
/// version, the two obsolete zero fields, then later an empty
/// supported-features list.
pub fn handshake_reply() -> (r: Vec<u8>)
    ensures
        r@ == spec_u64_to_le_bytes(spec_version_num(ProtocolVersion { major: 1, minor: 38 }))
            + spec_u64_to_le_bytes(0u64) + spec_u64_to_le_bytes(0u64),
{
    let mut out: Vec<u8> = Vec::new();
    let v = version_to_u64(client_version());
    encode_u64_into(&mut out, v);
    encode_u64_into(&mut out, 0);
    encode_u64_into(&mut out, 0);
    proof {
        assert(out@ =~= spec_u64_to_le_bytes(
            spec_version_num(ProtocolVersion { major: 1, minor: 38 }),
        ) + spec_u64_to_le_bytes(0u64) + spec_u64_to_le_bytes(0u64));
    }
    out
}

/// The client's supported-features list: empty.
pub fn handshake_features() -> (r: Vec<u8>)
    ensures
        r@ == spec_framed_list(Seq::<Seq<u8>>::empty()),
{
    let empty: Vec<Vec<u8>> = Vec::new();
    let mut out: Vec<u8> = Vec::new();
    encode_string_list_into(&mut out, &empty);
    proof {
        assert(empty@.map_values(|s: Vec<u8>| s@) =~= Seq::<Seq<u8>>::empty());
        assert(out@ =~= spec_framed_list(Seq::<Seq<u8>>::empty()));
    }
    out
}

/// The bytes of one request: the opcode, then its string argument.
pub fn op_request(op: OpCode, arg: &[u8]) -> (r: Vec<u8>)
    ensures
        r@ == spec_u64_to_le_bytes(spec_opcode_num(op)) + spec_framed(arg@),
{
    let mut out: Vec<u8> = Vec::new();
    let n = opcode_num(op);
    encode_u64_into(&mut out, n);
    encode_string_into(&mut out, arg);
    proof {
        assert(out@ =~= spec_u64_to_le_bytes(spec_opcode_num(op)) + spec_framed(arg@));
    }
    out
}

/// The response to `IsValidPath`: a u64 read as a boolean.
pub fn parse_is_valid_path_response(buf: &[u8], pos: usize) -> (r: Result<
    (bool, usize),
    CacheError,
>)
    ensures
        match r {
            Ok((b, end)) => {
                &&& end == pos + 8
                &&& end <= buf@.len()
                &&& b == (vstd::bytes::spec_u64_from_le_bytes(
                    buf@.subrange(pos as int, pos + 8),
                ) != 0)
            },
            Err(e) => e == CacheError::DaemonProtocol && pos + 8 > buf@.len(),
        },
{
    let (x, end) = parse_u64(buf, pos)?;
    Ok((x != 0, end))
}

/// The response to `QueryPathFromHashPart`: a store path, where the
/// empty string means the hash is unknown. It never fails on a reply
/// that starts with a well-formed frame.
pub fn parse_path_from_hash_part_response(buf: &[u8], pos: usize) -> (r: Result<
    (Option<Vec<u8>>, usize),
    CacheError,
>)
    ensures
        match r {
            Ok((o, end)) => {
                &&& pos <= end <= buf@.len()
                &&& match o {
                    Some(p) => p@.len() > 0 && buf@.subrange(pos as int, end as int)
                        == spec_framed(p@),
                    None => buf@.subrange(pos as int, end as int) == spec_framed(
                        Seq::<u8>::empty(),
                    ),
                }
            },
            Err(e) => {
                &&& e == CacheError::DaemonProtocol
                &&& pos <= buf@.len() ==> forall|s: Seq<u8>|
                    !crate::wire::spec_starts_with_framed(buf@.skip(pos as int), s)
            },
        },
{
    let (s, end) = parse_string(buf, pos)?;
    if s.len() == 0 {
        proof {
            assert(s@ =~= Seq::<u8>::empty());
        }
        Ok((None, end))
    } else {
        Ok((Some(s), end))
    }
}

/// Structured metadata for one store path, as the daemon reports it.
pub struct ValidPathInfo {
    pub deriver: Vec<u8>,
    pub hash: Vec<u8>,
    pub references: Vec<Vec<u8>>,
    pub registration_time: u64,
    pub nar_size: u64,
    pub ultimate: bool,
    pub sigs: Vec<Vec<u8>>,
    pub content_address: Option<Vec<u8>>,
}

/// The wire form of a path-info record, given the raw flag words the
/// daemon chose for the two booleans.
pub open spec fn spec_path_info_enc(p: ValidPathInfo, ultimate_word: u64) -> Seq<u8> {
    spec_framed(p.deriver@) + spec_framed(p.hash@) + spec_framed_list(
        p.references@.map_values(|s: Vec<u8>| s@),
    ) + spec_u64_to_le_bytes(p.registration_time) + spec_u64_to_le_bytes(p.nar_size)
        + spec_u64_to_le_bytes(ultimate_word) + spec_framed_list(
        p.sigs@.map_values(|s: Vec<u8>| s@),
    ) + spec_framed(
        match p.content_address {
            Some(ca) => ca@,
            None => Seq::<u8>::empty(),
        },
    )
}


/// Field `k` of a path-info record's wire form, 1 through 8.
pub open spec fn spec_record_field(info: ValidPathInfo, uw: u64, k: int) -> Seq<u8> {
    if k == 1 {
        spec_framed(info.deriver@)
    } else if k == 2 {
        spec_framed(info.hash@)
    } else if k == 3 {
        spec_framed_list(info.references@.map_values(|s: Vec<u8>| s@))
    } else if k == 4 {
        spec_u64_to_le_bytes(info.registration_time)
    } else if k == 5 {
        spec_u64_to_le_bytes(info.nar_size)
    } else if k == 6 {
        spec_u64_to_le_bytes(uw)
    } else if k == 7 {
        spec_framed_list(info.sigs@.map_values(|s: Vec<u8>| s@))
    } else {
        spec_framed(
            match info.content_address {
                Some(ca) => ca@,
                None => Seq::<u8>::empty(),
            },
        )
    }
}

/// The record's wire form from field `k` on.
pub open spec fn spec_record_tail(info: ValidPathInfo, uw: u64, k: int) -> Seq<u8>
    decreases 9 - k,
{
    if k < 1 || k > 8 {
        Seq::empty()
    } else {
        spec_record_field(info, uw, k) + spec_record_tail(info, uw, k + 1)
    }
}

#[verifier::rlimit(60)]
proof fn lemma_record_tail_eq(info: ValidPathInfo, uw: u64)
    ensures
        spec_path_info_enc(info, uw) == spec_record_tail(info, uw, 1),
{
    assert(spec_record_tail(info, uw, 9) == Seq::<u8>::empty());
    assert(spec_record_tail(info, uw, 8) == spec_record_field(info, uw, 8) + spec_record_tail(
        info,
        uw,
        9,
    ));
    assert(spec_record_tail(info, uw, 7) == spec_record_field(info, uw, 7) + spec_record_tail(
        info,
        uw,
        8,
    ));
    assert(spec_record_tail(info, uw, 6) == spec_record_field(info, uw, 6) + spec_record_tail(
        info,
        uw,
        7,
    ));
    assert(spec_record_tail(info, uw, 5) == spec_record_field(info, uw, 5) + spec_record_tail(
        info,
        uw,
        6,
    ));
    assert(spec_record_tail(info, uw, 4) == spec_record_field(info, uw, 4) + spec_record_tail(
        info,
        uw,
        5,
    ));
    assert(spec_record_tail(info, uw, 3) == spec_record_field(info, uw, 3) + spec_record_tail(
        info,
        uw,
        4,
    ));
    assert(spec_record_tail(info, uw, 2) == spec_record_field(info, uw, 2) + spec_record_tail(
        info,
        uw,
        3,
    ));
    assert(spec_record_tail(info, uw, 1) == spec_record_field(info, uw, 1) + spec_record_tail(
        info,
        uw,
        2,
    ));
    assert(spec_path_info_enc(info, uw) =~= spec_record_tail(info, uw, 1));
}

/// While a hypothetical record reply begins at `pos` and its tail
/// from field `k` begins at `p`, consuming the framed string field
/// `k` moves the tail start to `p2`.
proof fn step_string(b: Seq<u8>, pos: int, p: int, p2: int, v: Seq<u8>, w0: u64, k: int)
    requires
        0 <= pos <= b.len() <= usize::MAX,
        0 <= p <= p2 <= b.len(),
        k == 1 || k == 2 || k == 8,
        b.subrange(p, p2) == spec_framed(v),
        forall|info: ValidPathInfo, w: u64, uw: u64|
            w != 0 && #[trigger] spec_starts_with_record(b.skip(pos), info, w, uw)
                ==> crate::text::spec_starts_with(b.skip(p), spec_record_tail(info, uw, k)),
    ensures
        forall|info: ValidPathInfo, w: u64, uw: u64|
            w != 0 && #[trigger] spec_starts_with_record(b.skip(pos), info, w, uw)
                ==> crate::text::spec_starts_with(b.skip(p2), spec_record_tail(info, uw, k + 1)),
{
    assert forall|info: ValidPathInfo, w: u64, uw: u64|
        w != 0 && #[trigger] spec_starts_with_record(b.skip(pos), info, w, uw) implies
    crate::text::spec_starts_with(b.skip(p2), spec_record_tail(info, uw, k + 1)) by {
        let payload = if k == 1 {
            info.deriver@
        } else if k == 2 {
            info.hash@
        } else {
            match info.content_address {
                Some(ca) => ca@,
                None => Seq::<u8>::empty(),
            }
        };
        assert(spec_record_tail(info, uw, k) == spec_framed(payload) + spec_record_tail(
            info,
            uw,
            k + 1,
        ));
        crate::wire::lemma_prefix_split(
            b.skip(p),
            spec_framed(payload),
            spec_record_tail(info, uw, k + 1),
        );
        assert(crate::wire::spec_starts_with_framed(b.skip(p), payload));
        assert(b.skip(p).subrange(0, spec_framed(v).len() as int) =~= b.subrange(p, p2));
        assert(crate::wire::spec_starts_with_framed(b.skip(p), v));
        crate::wire::lemma_frame_prefix_unique(b.skip(p), payload, v);
        assert(b.skip(p).skip(spec_framed(payload).len() as int) =~= b.skip(p2));
    }
}

/// Consuming a u64 field moves the tail start 8 bytes forward.
proof fn step_u64(b: Seq<u8>, pos: int, p: int, p2: int, w0: u64, k: int)
    requires
        0 <= pos <= b.len() <= usize::MAX,
        0 <= p <= p2 <= b.len(),
        p2 == p + 8,
        k == 4 || k == 5 || k == 6,
        forall|info: ValidPathInfo, w: u64, uw: u64|
            w != 0 && #[trigger] spec_starts_with_record(b.skip(pos), info, w, uw)
                ==> crate::text::spec_starts_with(b.skip(p), spec_record_tail(info, uw, k)),
    ensures
        forall|info: ValidPathInfo, w: u64, uw: u64|
            w != 0 && #[trigger] spec_starts_with_record(b.skip(pos), info, w, uw)
                ==> crate::text::spec_starts_with(b.skip(p2), spec_record_tail(info, uw, k + 1)),
{
    lemma_auto_spec_u64_to_from_le_bytes();
    assert forall|info: ValidPathInfo, w: u64, uw: u64|
        w != 0 && #[trigger] spec_starts_with_record(b.skip(pos), info, w, uw) implies
    crate::text::spec_starts_with(b.skip(p2), spec_record_tail(info, uw, k + 1)) by {
        let field = spec_record_field(info, uw, k);
        assert(field.len() == 8);
        assert(spec_record_tail(info, uw, k) == field + spec_record_tail(info, uw, k + 1));
        crate::wire::lemma_prefix_split(b.skip(p), field, spec_record_tail(info, uw, k + 1));
        assert(b.skip(p).skip(8) =~= b.skip(p2));
    }
}

/// Consuming a string-list field moves the tail start past the list.
proof fn step_list(b: Seq<u8>, pos: int, p: int, p2: int, v: Seq<Seq<u8>>, w0: u64, k: int)
    requires
        0 <= pos <= b.len() <= usize::MAX,
        0 <= p <= p2 <= b.len(),
        k == 3 || k == 7,
        b.subrange(p, p2) == spec_framed_list(v),
        forall|info: ValidPathInfo, w: u64, uw: u64|
            w != 0 && #[trigger] spec_starts_with_record(b.skip(pos), info, w, uw)
                ==> crate::text::spec_starts_with(b.skip(p), spec_record_tail(info, uw, k)),
    ensures
        forall|info: ValidPathInfo, w: u64, uw: u64|
            w != 0 && #[trigger] spec_starts_with_record(b.skip(pos), info, w, uw)
                ==> crate::text::spec_starts_with(b.skip(p2), spec_record_tail(info, uw, k + 1)),
{
    assert forall|info: ValidPathInfo, w: u64, uw: u64|
        w != 0 && #[trigger] spec_starts_with_record(b.skip(pos), info, w, uw) implies
    crate::text::spec_starts_with(b.skip(p2), spec_record_tail(info, uw, k + 1)) by {
        let l = if k == 3 {
            info.references@.map_values(|s: Vec<u8>| s@)
        } else {
            info.sigs@.map_values(|s: Vec<u8>| s@)
        };
        assert(spec_record_tail(info, uw, k) == spec_framed_list(l) + spec_record_tail(
            info,
            uw,
            k + 1,
        ));
        crate::wire::lemma_prefix_split(
            b.skip(p),
            spec_framed_list(l),
            spec_record_tail(info, uw, k + 1),
        );
        assert(crate::wire::spec_starts_with_list(b.skip(p), l));
        assert(b.skip(p).subrange(0, spec_framed_list(v).len() as int) =~= b.subrange(p, p2));
        assert(crate::wire::spec_starts_with_list(b.skip(p), v));
        crate::wire::lemma_list_prefix_unique(b.skip(p), l, v);
        assert(b.skip(p).skip(spec_framed_list(l).len() as int) =~= b.skip(p2));
    }
}

/// A failed framed-string parse at the tail position rules every
/// hypothetical record out.
proof fn no_record_at_field(b: Seq<u8>, pos: int, p: int, k: int)
    requires
        0 <= pos <= b.len() <= usize::MAX,
        0 <= p <= b.len(),
        k == 1 || k == 2 || k == 8,
        forall|s: Seq<u8>| !crate::wire::spec_starts_with_framed(b.skip(p), s),
        forall|info: ValidPathInfo, w: u64, uw: u64|
            w != 0 && #[trigger] spec_starts_with_record(b.skip(pos), info, w, uw)
                ==> crate::text::spec_starts_with(b.skip(p), spec_record_tail(info, uw, k)),
    ensures
        forall|info: ValidPathInfo, w: u64, uw: u64|
            w != 0 ==> !spec_starts_with_record(b.skip(pos), info, w, uw),
{
    assert forall|info: ValidPathInfo, w: u64, uw: u64| w != 0 implies !spec_starts_with_record(
        b.skip(pos),
        info,
        w,
        uw,
    ) by {
        if spec_starts_with_record(b.skip(pos), info, w, uw) {
            let payload = if k == 1 {
                info.deriver@
            } else if k == 2 {
                info.hash@
            } else {
                match info.content_address {
                    Some(ca) => ca@,
                    None => Seq::<u8>::empty(),
                }
            };
            assert(spec_record_tail(info, uw, k) == spec_framed(payload) + spec_record_tail(
                info,
                uw,
                k + 1,
            ));
            crate::wire::lemma_prefix_split(
                b.skip(p),
                spec_framed(payload),
                spec_record_tail(info, uw, k + 1),
            );
            assert(crate::wire::spec_starts_with_framed(b.skip(p), payload));
        }
    }
}

/// A failed list parse at the tail position rules every hypothetical
/// record out.
proof fn no_record_at_list(b: Seq<u8>, pos: int, p: int, k: int)
    requires
        0 <= pos <= b.len() <= usize::MAX,
        0 <= p <= b.len(),
        k == 3 || k == 7,
        forall|l: Seq<Seq<u8>>| !crate::wire::spec_starts_with_list(b.skip(p), l),
        forall|info: ValidPathInfo, w: u64, uw: u64|
            w != 0 && #[trigger] spec_starts_with_record(b.skip(pos), info, w, uw)
                ==> crate::text::spec_starts_with(b.skip(p), spec_record_tail(info, uw, k)),
    ensures
        forall|info: ValidPathInfo, w: u64, uw: u64|
            w != 0 ==> !spec_starts_with_record(b.skip(pos), info, w, uw),
{
    assert forall|info: ValidPathInfo, w: u64, uw: u64| w != 0 implies !spec_starts_with_record(
        b.skip(pos),
        info,
        w,
        uw,
    ) by {
        if spec_starts_with_record(b.skip(pos), info, w, uw) {
            let l = if k == 3 {
                info.references@.map_values(|s: Vec<u8>| s@)
            } else {
                info.sigs@.map_values(|s: Vec<u8>| s@)
            };
            assert(spec_record_tail(info, uw, k) == spec_framed_list(l) + spec_record_tail(
                info,
                uw,
                k + 1,
            ));
            crate::wire::lemma_prefix_split(
                b.skip(p),
                spec_framed_list(l),
                spec_record_tail(info, uw, k + 1),
            );
            assert(crate::wire::spec_starts_with_list(b.skip(p), l));
        }
    }
}

/// A u64 field that does not fit in the buffer rules every
/// hypothetical record out.
proof fn no_record_at_u64(b: Seq<u8>, pos: int, p: int, k: int)
    requires
        0 <= pos <= b.len() <= usize::MAX,
        0 <= p <= b.len(),
        p + 8 > b.len(),
        k == 4 || k == 5 || k == 6,
        forall|info: ValidPathInfo, w: u64, uw: u64|
            w != 0 && #[trigger] spec_starts_with_record(b.skip(pos), info, w, uw)
                ==> crate::text::spec_starts_with(b.skip(p), spec_record_tail(info, uw, k)),
    ensures
        forall|info: ValidPathInfo, w: u64, uw: u64|
            w != 0 ==> !spec_starts_with_record(b.skip(pos), info, w, uw),
{
    lemma_auto_spec_u64_to_from_le_bytes();
    assert forall|info: ValidPathInfo, w: u64, uw: u64| w != 0 implies !spec_starts_with_record(
        b.skip(pos),
        info,
        w,
        uw,
    ) by {
        if spec_starts_with_record(b.skip(pos), info, w, uw) {
            assert(spec_record_field(info, uw, k).len() == 8);
            assert(spec_record_tail(info, uw, k).len() >= 8);
            assert(b.skip(p).len() < 8);
        }
    }
}

/// Whether a byte string begins with the wire form of a present
/// path-info reply: a non-zero flag word, then the record.
pub open spec fn spec_starts_with_record(
    b: Seq<u8>,
    info: ValidPathInfo,
    w: u64,
    uw: u64,
) -> bool {
    let f = spec_u64_to_le_bytes(w) + spec_path_info_enc(info, uw);
    b.len() >= f.len() && b.subrange(0, f.len() as int) == f
}

/// The response to `QueryPathInfo`: an optional-flag word, then the
/// record. An empty content address means none. It never fails on a
/// reply that starts with a well-formed absent-record word or a
/// well-formed record.
#[verifier::rlimit(100)]
#[verifier::spinoff_prover]
pub fn parse_path_info_response(buf: &[u8], pos: usize) -> (r: Result<
    (Option<ValidPathInfo>, usize),
    CacheError,
>)
    ensures
        match r {
            Ok((o, end)) => {
                &&& pos <= end <= buf@.len()
                &&& match o {
                    Some(info) => {
                        &&& (exists|w: u64, uw: u64|
                            w != 0 && info.ultimate == (uw != 0) && buf@.subrange(
                                pos as int,
                                end as int,
                            ) == spec_u64_to_le_bytes(w) + spec_path_info_enc(info, uw))
                        &&& (info.content_address matches Some(ca) ==> ca@.len() > 0)
                    },
                    None => buf@.subrange(pos as int, end as int) == spec_u64_to_le_bytes(0u64),
                }
            },
            Err(e) => {
                &&& e == CacheError::DaemonProtocol
                &&& pos <= buf@.len() ==> {
                    &&& !(pos + 8 <= buf@.len() && vstd::bytes::spec_u64_from_le_bytes(
                        buf@.subrange(pos as int, pos + 8),
                    ) == 0)
                    &&& forall|info: ValidPathInfo, w: u64, uw: u64|
                        w != 0 ==> !spec_starts_with_record(buf@.skip(pos as int), info, w, uw)
                }
            },
        },
{
    let blen = buf.len();
    let r0 = parse_u64_enc(buf, pos);
    let (optional, p0) = match r0 {
        Ok(v) => v,
        Err(e) => {
            proof {
                if pos <= buf@.len() {
                    assert forall|info: ValidPathInfo, w: u64, uw: u64|
                        w != 0 implies !spec_starts_with_record(
                        buf@.skip(pos as int),
                        info,
                        w,
                        uw,
                    ) by {
                        lemma_auto_spec_u64_to_from_le_bytes();
                        assert(buf@.skip(pos as int).len() < 8);
                        assert((spec_u64_to_le_bytes(w) + spec_path_info_enc(info, uw)).len()
                            >= 8);
                    }
                }
            }
            return Err(e);
        },
    };
    if optional == 0 {
        return Ok((None, p0));
    }
    // From here on, any hypothetical record reply beginning at `pos`
    // is tracked field by field: after each parse, the record's
    // remaining fields must begin exactly where the parser stands.
    proof {
        lemma_auto_spec_u64_to_from_le_bytes();
        assert(buf@.skip(pos as int).subrange(0, 8) =~= buf@.subrange(pos as int, pos + 8));
        assert forall|info: ValidPathInfo, w: u64, uw: u64|
            w != 0 && #[trigger] spec_starts_with_record(buf@.skip(pos as int), info, w, uw)
            implies crate::text::spec_starts_with(
            buf@.skip(p0 as int),
            spec_record_tail(info, uw, 1),
        ) by {
            let b = buf@.skip(pos as int);
            lemma_record_tail_eq(info, uw);
            crate::wire::lemma_prefix_split(
                b,
                spec_u64_to_le_bytes(w),
                spec_path_info_enc(info, uw),
            );
            assert(b.skip(8) =~= buf@.skip(p0 as int));
        }
    }
    let r1 = parse_string(buf, p0);
    let (deriver, p1) = match r1 {
        Ok(v) => v,
        Err(e) => {
            proof {
                no_record_at_field(buf@, pos as int, p0 as int, 1);
            }
            return Err(e);
        },
    };
    proof {
        step_string(buf@, pos as int, p0 as int, p1 as int, deriver@, optional, 1);
    }
    let r2 = parse_string(buf, p1);
    let (hash, p2) = match r2 {
        Ok(v) => v,
        Err(e) => {
            proof {
                no_record_at_field(buf@, pos as int, p1 as int, 2);
            }
            return Err(e);
        },
    };
    proof {
        step_string(buf@, pos as int, p1 as int, p2 as int, hash@, optional, 2);
    }
    let r3 = parse_string_list(buf, p2);
    let (references, p3) = match r3 {
        Ok(v) => v,
        Err(e) => {
            proof {
                no_record_at_list(buf@, pos as int, p2 as int, 3);
            }
            return Err(e);
        },
    };
    proof {
        step_list(
            buf@,
            pos as int,
            p2 as int,
            p3 as int,
            references@.map_values(|s: Vec<u8>| s@),
            optional,
            3,
        );
    }
    let r4 = parse_u64_enc(buf, p3);
    let (registration_time, p4) = match r4 {
        Ok(v) => v,
        Err(e) => {
            proof {
                no_record_at_u64(buf@, pos as int, p3 as int, 4);
            }
            return Err(e);
        },
    };
    proof {
        step_u64(buf@, pos as int, p3 as int, p4 as int, optional, 4);
    }
    let r5 = parse_u64_enc(buf, p4);
    let (nar_size, p5) = match r5 {
        Ok(v) => v,
        Err(e) => {
            proof {
                no_record_at_u64(buf@, pos as int, p4 as int, 5);
            }
            return Err(e);
        },
    };
    proof {
        step_u64(buf@, pos as int, p4 as int, p5 as int, optional, 5);
    }
    let r6 = parse_u64_enc(buf, p5);
    let (ultimate_word, p6) = match r6 {
        Ok(v) => v,
        Err(e) => {
            proof {
                no_record_at_u64(buf@, pos as int, p5 as int, 6);
            }
            return Err(e);
        },
    };
    proof {
        step_u64(buf@, pos as int, p5 as int, p6 as int, optional, 6);
    }
    let r7 = parse_string_list(buf, p6);
    let (sigs, p7) = match r7 {
        Ok(v) => v,
        Err(e) => {
            proof {
                no_record_at_list(buf@, pos as int, p6 as int, 7);
            }
            return Err(e);
        },
    };
    proof {
        step_list(
            buf@,
            pos as int,
            p6 as int,
            p7 as int,
            sigs@.map_values(|s: Vec<u8>| s@),
            optional,
            7,
        );
    }
    let r8 = parse_string(buf, p7);
    let (ca, p8) = match r8 {
        Ok(v) => v,
        Err(e) => {
            proof {
                no_record_at_field(buf@, pos as int, p7 as int, 8);
            }
            return Err(e);
        },
    };
    let content_address = if ca.len() == 0 {
        None
    } else {
        Some(ca)
    };
    let info = ValidPathInfo {
        deriver,
        hash,
        references,
        registration_time,
        nar_size,
        ultimate: ultimate_word != 0,
        sigs,
        content_address,
    };
    proof {
        lemma_concat2(buf@, p0 as int, p1 as int, p2 as int);
        lemma_concat2(buf@, p0 as int, p2 as int, p3 as int);
        lemma_concat2(buf@, p0 as int, p3 as int, p4 as int);
        lemma_concat2(buf@, p0 as int, p4 as int, p5 as int);
        lemma_concat2(buf@, p0 as int, p5 as int, p6 as int);
        lemma_concat2(buf@, p0 as int, p6 as int, p7 as int);
        lemma_concat2(buf@, p0 as int, p7 as int, p8 as int);
        lemma_concat2(buf@, pos as int, p0 as int, p8 as int);
        assert(match info.content_address {
            Some(c) => c@,
            None => Seq::<u8>::empty(),
        } =~= ca@);
        if info.ultimate {
            assert(ultimate_word != 0);
        } else {
            assert(ultimate_word == 0);
        }
        assert(buf@.subrange(p0 as int, p8 as int) == spec_path_info_enc(info, ultimate_word));
        assert(optional != 0 && info.ultimate == (ultimate_word != 0) && buf@.subrange(
            pos as int,
            p8 as int,
        ) == spec_u64_to_le_bytes(optional) + spec_path_info_enc(info, ultimate_word));
    }
    Ok((Some(info), p8))
}

/// One trace of a daemon-reported error.
pub struct Trace {
    pub have_pos: u64,
    pub trace: Vec<u8>,
}

/// A daemon-reported error on the logger side-channel.
pub struct StderrError {
    pub typ: Vec<u8>,
    pub level: u64,
    pub name: Vec<u8>,
    pub message: Vec<u8>,
    pub have_pos: u64,
    pub traces: Vec<Trace>,
}

/// The field a start-activity message carries: a number or a string.
pub enum LogField {
    Int(u64),
    Text(Vec<u8>),
}

/// A start-activity message.
pub struct StderrStartActivity {
    pub act: u64,
    pub lvl: u64,
    pub typ: u64,
    pub s: Vec<u8>,
    pub fields: LogField,
    pub parent: u64,
}

/// One message of the logger side-channel.
pub enum StderrItem {
    /// A stdout fragment to forward.
    Write(Vec<u8>),
    /// A log line to forward.
    Next(Vec<u8>),
    /// An activity began.
    StartActivity(StderrStartActivity),
    /// An activity ended.
    StopActivity(u64),
    /// A result message to forward.
    ResultMsg(Vec<u8>),
    /// The terminator: control returns to the caller.
    Last,
    /// The daemon aborted the operation.
    ErrorMsg(StderrError),
}

/// The wire form of the traces of an error message, from index `i`.
pub open spec fn spec_traces_enc(ts: Seq<Trace>, i: int) -> Seq<u8>
    decreases ts.len() - i,
{
    if i < 0 || i >= ts.len() {
        Seq::<u8>::empty()
    } else {
        spec_u64_to_le_bytes(ts[i].have_pos) + spec_framed(ts[i].trace@) + spec_traces_enc(
            ts,
            i + 1,
        )
    }
}

/// The logger tag a message arrives under.
pub open spec fn spec_item_tag(item: StderrItem) -> MsgTag {
    match item {
        StderrItem::Write(_) => MsgTag::Write,
        StderrItem::Next(_) => MsgTag::Next,
        StderrItem::StartActivity(_) => MsgTag::StartActivity,
        StderrItem::StopActivity(_) => MsgTag::StopActivity,
        StderrItem::ResultMsg(_) => MsgTag::ResultMsg,
        StderrItem::Last => MsgTag::Last,
        StderrItem::ErrorMsg(_) => MsgTag::Error,
    }
}

/// Field `k` of a start-activity message's payload, 1 through 7.
pub open spec fn spec_sa_field(a: StderrStartActivity, k: int) -> Seq<u8> {
    if k == 1 {
        spec_u64_to_le_bytes(a.act)
    } else if k == 2 {
        spec_u64_to_le_bytes(a.lvl)
    } else if k == 3 {
        spec_u64_to_le_bytes(a.typ)
    } else if k == 4 {
        spec_framed(a.s@)
    } else if k == 5 {
        match a.fields {
            LogField::Int(_) => spec_u64_to_le_bytes(0u64),
            LogField::Text(_) => spec_u64_to_le_bytes(1u64),
        }
    } else if k == 6 {
        match a.fields {
            LogField::Int(v) => spec_u64_to_le_bytes(v),
            LogField::Text(t) => spec_framed(t@),
        }
    } else {
        spec_u64_to_le_bytes(a.parent)
    }
}

/// A start-activity payload from field `k` on.
pub open spec fn spec_sa_tail(a: StderrStartActivity, k: int) -> Seq<u8>
    decreases 8 - k,
{
    if k < 1 || k > 7 {
        Seq::empty()
    } else {
        spec_sa_field(a, k) + spec_sa_tail(a, k + 1)
    }
}

/// Field `k` of an error message's payload before its traces, 1
/// through 6.
pub open spec fn spec_em_field(e: StderrError, k: int) -> Seq<u8> {
    if k == 1 {
        spec_framed(e.typ@)
    } else if k == 2 {
        spec_u64_to_le_bytes(e.level)
    } else if k == 3 {
        spec_framed(e.name@)
    } else if k == 4 {
        spec_framed(e.message@)
    } else if k == 5 {
        spec_u64_to_le_bytes(e.have_pos)
    } else {
        spec_u64_to_le_bytes(e.traces@.len() as u64)
    }
}

/// An error payload from field `k` on, the traces last.
pub open spec fn spec_em_tail(e: StderrError, k: int) -> Seq<u8>
    decreases 8 - k,
{
    if k > 6 {
        spec_traces_enc(e.traces@, 0)
    } else if k < 1 {
        Seq::empty()
    } else {
        spec_em_field(e, k) + spec_em_tail(e, k + 1)
    }
}

/// The payload that follows a message's tag word.
pub open spec fn spec_msg_rest(item: StderrItem) -> Seq<u8> {
    match item {
        StderrItem::Write(s) => spec_framed(s@),
        StderrItem::Next(s) => spec_framed(s@),
        StderrItem::ResultMsg(s) => spec_framed(s@),
        StderrItem::StopActivity(act) => spec_u64_to_le_bytes(act),
        StderrItem::Last => Seq::empty(),
        StderrItem::StartActivity(a) => spec_sa_tail(a, 1),
        StderrItem::ErrorMsg(e) => spec_em_tail(e, 1),
    }
}

/// The wire form of one logger message: its tag word, then its
/// payload.
pub open spec fn spec_stderr_enc(item: StderrItem) -> Seq<u8> {
    spec_u64_to_le_bytes(spec_msg_num(spec_item_tag(item))) + spec_msg_rest(item)
}

/// Whether a byte string begins with the wire form of a logger
/// message.
pub open spec fn spec_starts_with_msg(b: Seq<u8>, item: StderrItem) -> bool {
    b.len() >= spec_stderr_enc(item).len() && b.subrange(0, spec_stderr_enc(item).len() as int)
        == spec_stderr_enc(item)
}

/// A message prefix pins the tag word and puts the payload right
/// after it.
proof fn lemma_msg_tag(b: Seq<u8>, item: StderrItem)
    requires
        spec_starts_with_msg(b, item),
    ensures
        b.len() >= 8,
        vstd::bytes::spec_u64_from_le_bytes(b.subrange(0, 8)) == spec_msg_num(
            spec_item_tag(item),
        ),
        crate::text::spec_starts_with(b.skip(8), spec_msg_rest(item)),
{
    lemma_auto_spec_u64_to_from_le_bytes();
    assert(crate::text::spec_starts_with(
        b,
        spec_u64_to_le_bytes(spec_msg_num(spec_item_tag(item))) + spec_msg_rest(item),
    )) by {
        assert(b.subrange(0, spec_stderr_enc(item).len() as int) =~= spec_stderr_enc(item));
    }
    crate::wire::lemma_prefix_split(
        b,
        spec_u64_to_le_bytes(spec_msg_num(spec_item_tag(item))),
        spec_msg_rest(item),
    );
    assert(b.subrange(0, 8) =~= spec_u64_to_le_bytes(spec_msg_num(spec_item_tag(item))));
}

/// Reads one u64 and states its wire form.
fn parse_u64_enc(buf: &[u8], pos: usize) -> (r: Result<(u64, usize), CacheError>)
    ensures
        match r {
            Ok((x, end)) => {
                &&& pos + 8 <= buf@.len()
                &&& end == pos + 8
                &&& buf@.subrange(pos as int, end as int) == spec_u64_to_le_bytes(x)
            },
            Err(e) => e == CacheError::DaemonProtocol && pos + 8 > buf@.len(),
        },
{
    let (x, end) = parse_u64(buf, pos)?;
    proof {
        lemma_auto_spec_u64_to_from_le_bytes();
        assert(buf@.subrange(pos as int, end as int).len() == 8);
        assert(spec_u64_to_le_bytes(x) =~= buf@.subrange(pos as int, end as int));
    }
    Ok((x, end))
}

/// Rules every hypothetical message out once the tag word is known
/// to match no catalog tag.
proof fn no_msg_bad_tag(b: Seq<u8>, pos: int, tw: u64)
    requires
        0 <= pos,
        pos + 8 <= b.len(),
        b.subrange(pos, pos + 8) == spec_u64_to_le_bytes(tw),
        forall|m: MsgTag| spec_msg_num(m) != tw,
    ensures
        forall|item: StderrItem| !spec_starts_with_msg(b.skip(pos), item),
{
    lemma_auto_spec_u64_to_from_le_bytes();
    assert forall|item: StderrItem| !spec_starts_with_msg(b.skip(pos), item) by {
        if spec_starts_with_msg(b.skip(pos), item) {
            lemma_msg_tag(b.skip(pos), item);
            assert(b.skip(pos).subrange(0, 8) =~= b.subrange(pos, pos + 8));
            assert(spec_msg_num(spec_item_tag(item)) == tw);
        }
    }
}

/// Rules every hypothetical message out when not even a tag word
/// fits in the buffer.
proof fn no_msg_short(b: Seq<u8>, pos: int)
    requires
        0 <= pos <= b.len(),
        pos + 8 > b.len(),
    ensures
        forall|item: StderrItem| !spec_starts_with_msg(b.skip(pos), item),
{
    lemma_auto_spec_u64_to_from_le_bytes();
    assert forall|item: StderrItem| !spec_starts_with_msg(b.skip(pos), item) by {
        if spec_starts_with_msg(b.skip(pos), item) {
            assert(spec_stderr_enc(item).len() >= 8);
            assert(b.skip(pos).len() < 8);
        }
    }
}

/// Parses one logger message at `pos`. On success the consumed bytes
/// are exactly the wire form of the returned message; anything else,
/// an unknown tag included, is fatal for the session. It never fails
/// on a buffer that starts with a well-formed message.
#[verifier::rlimit(100)]
#[verifier::spinoff_prover]
pub fn parse_stderr_item(buf: &[u8], pos: usize) -> (r: Result<(StderrItem, usize), CacheError>)
    ensures
        match r {
            Ok((item, end)) => {
                &&& pos <= end <= buf@.len()
                &&& buf@.subrange(pos as int, end as int) == spec_stderr_enc(item)
            },
            Err(e) => {
                &&& e == CacheError::DaemonProtocol
                &&& pos <= buf@.len() ==> forall|item: StderrItem|
                    !spec_starts_with_msg(buf@.skip(pos as int), item)
            },
        },
{
    let blen = buf.len();
    let r0 = parse_u64_enc(buf, pos);
    let (tag_word, p0) = match r0 {
        Ok(v) => v,
        Err(e) => {
            proof {
                if pos <= buf@.len() {
                    no_msg_short(buf@, pos as int);
                }
            }
            return Err(e);
        },
    };
    let tag = match msg_from_u64(tag_word) {
        Some(t) => t,
        None => {
            proof {
                no_msg_bad_tag(buf@, pos as int, tag_word);
            }
            return Err(CacheError::DaemonProtocol);
        },
    };
    proof {
        lemma_auto_spec_u64_to_from_le_bytes();
        // Any hypothetical message beginning at `pos` carries this
        // tag, and its payload begins at `p0`.
        assert forall|item: StderrItem|
            #[trigger] spec_starts_with_msg(buf@.skip(pos as int), item) implies spec_item_tag(
            item,
        ) == tag && crate::text::spec_starts_with(buf@.skip(p0 as int), spec_msg_rest(item)) by {
            lemma_msg_tag(buf@.skip(pos as int), item);
            assert(buf@.skip(pos as int).subrange(0, 8) =~= buf@.subrange(pos as int, p0 as int));
            assert(spec_msg_num(spec_item_tag(item)) == tag_word);
            match spec_item_tag(item) {
                MsgTag::Write => {},
                _ => {},
            }
            assert(buf@.skip(pos as int).skip(8) =~= buf@.skip(p0 as int));
        }
    }
    match tag {
        MsgTag::Write | MsgTag::Next | MsgTag::ResultMsg => {
            let r1 = parse_string(buf, p0);
            let (sv, end) = match r1 {
                Ok(v) => v,
                Err(e) => {
                    proof {
                        assert forall|item: StderrItem| !spec_starts_with_msg(
                            buf@.skip(pos as int),
                            item,
                        ) by {
                            if spec_starts_with_msg(buf@.skip(pos as int), item) {
                                match item {
                                    StderrItem::Write(sx) => {
                                        assert(crate::wire::spec_starts_with_framed(
                                            buf@.skip(p0 as int),
                                            sx@,
                                        ));
                                    },
                                    StderrItem::Next(sx) => {
                                        assert(crate::wire::spec_starts_with_framed(
                                            buf@.skip(p0 as int),
                                            sx@,
                                        ));
                                    },
                                    StderrItem::ResultMsg(sx) => {
                                        assert(crate::wire::spec_starts_with_framed(
                                            buf@.skip(p0 as int),
                                            sx@,
                                        ));
                                    },
                                    _ => {},
                                }
                            }
                        }
                    }
                    return Err(e);
                },
            };
            let item = match tag {
                MsgTag::Write => StderrItem::Write(sv),
                MsgTag::Next => StderrItem::Next(sv),
                _ => StderrItem::ResultMsg(sv),
            };
            proof {
                lemma_concat2(buf@, pos as int, p0 as int, end as int);
                assert(buf@.subrange(pos as int, end as int) == spec_stderr_enc(item));
            }
            Ok((item, end))
        },
        MsgTag::StopActivity => {
            let r1 = parse_u64_enc(buf, p0);
            let (act, end) = match r1 {
                Ok(v) => v,
                Err(e) => {
                    proof {
                        assert forall|item: StderrItem| !spec_starts_with_msg(
                            buf@.skip(pos as int),
                            item,
                        ) by {
                            if spec_starts_with_msg(buf@.skip(pos as int), item) {
                                assert(spec_msg_rest(item).len() == 8);
                                assert(buf@.skip(p0 as int).len() < 8);
                            }
                        }
                    }
                    return Err(e);
                },
            };
            proof {
                lemma_concat2(buf@, pos as int, p0 as int, end as int);
                assert(buf@.subrange(pos as int, end as int) == spec_stderr_enc(
                    StderrItem::StopActivity(act),
                ));
            }
            Ok((StderrItem::StopActivity(act), end))
        },
        MsgTag::Last => {
            proof {
                assert(spec_msg_rest(StderrItem::Last) =~= Seq::<u8>::empty());
                assert(buf@.subrange(pos as int, p0 as int) == spec_stderr_enc(StderrItem::Last));
            }
            Ok((StderrItem::Last, p0))
        },
        MsgTag::StartActivity => parse_start_activity(buf, pos, p0),
        MsgTag::Error => parse_error_msg(buf, pos, p0),
    }
}

/// The start-activity arm of the logger parser; `p0` is where the
/// payload begins.
#[verifier::rlimit(100)]
#[verifier::spinoff_prover]
fn parse_start_activity(buf: &[u8], pos: usize, p0: usize) -> (r: Result<
    (StderrItem, usize),
    CacheError,
>)
    requires
        pos <= p0 <= buf@.len(),
        p0 == pos + 8,
        buf@.subrange(pos as int, p0 as int) == spec_u64_to_le_bytes(
            spec_msg_num(MsgTag::StartActivity),
        ),
        forall|item: StderrItem|
            #[trigger] spec_starts_with_msg(buf@.skip(pos as int), item) ==> spec_item_tag(item)
                == MsgTag::StartActivity && crate::text::spec_starts_with(
                buf@.skip(p0 as int),
                spec_msg_rest(item),
            ),
    ensures
        match r {
            Ok((item, end)) => {
                &&& pos <= end <= buf@.len()
                &&& buf@.subrange(pos as int, end as int) == spec_stderr_enc(item)
            },
            Err(e) => {
                &&& e == CacheError::DaemonProtocol
                &&& forall|item: StderrItem| !spec_starts_with_msg(buf@.skip(pos as int), item)
            },
        },
{
    let blen = buf.len();
    proof {
        assert(buf@.len() == blen);
        lemma_auto_spec_u64_to_from_le_bytes();
        assert forall|a: StderrStartActivity|
            #[trigger] spec_starts_with_msg(
                buf@.skip(pos as int),
                StderrItem::StartActivity(a),
            ) implies crate::text::spec_starts_with(buf@.skip(p0 as int), spec_sa_tail(a, 1)) by {}
    }
    let r1 = parse_u64_enc(buf, p0);
    let (act, p1) = match r1 {
        Ok(v) => v,
        Err(e) => {
            proof {
                sa_blocked_u64(buf@, pos as int, p0 as int, 1);
            }
            return Err(e);
        },
    };
    proof {
        sa_step_u64(buf@, pos as int, p0 as int, p1 as int, 1);
    }
    let r2 = parse_u64_enc(buf, p1);
    let (lvl, p2) = match r2 {
        Ok(v) => v,
        Err(e) => {
            proof {
                sa_blocked_u64(buf@, pos as int, p1 as int, 2);
            }
            return Err(e);
        },
    };
    proof {
        sa_step_u64(buf@, pos as int, p1 as int, p2 as int, 2);
    }
    let r3 = parse_u64_enc(buf, p2);
    let (typ, p3) = match r3 {
        Ok(v) => v,
        Err(e) => {
            proof {
                sa_blocked_u64(buf@, pos as int, p2 as int, 3);
            }
            return Err(e);
        },
    };
    proof {
        sa_step_u64(buf@, pos as int, p2 as int, p3 as int, 3);
    }
    let r4 = parse_string(buf, p3);
    let (sv, p4) = match r4 {
        Ok(v) => v,
        Err(e) => {
            proof {
                assert forall|item: StderrItem| !spec_starts_with_msg(
                    buf@.skip(pos as int),
                    item,
                ) by {
                    if spec_starts_with_msg(buf@.skip(pos as int), item) {
                        match item {
                            StderrItem::StartActivity(a) => {
                                assert(spec_sa_tail(a, 4) == spec_framed(a.s@) + spec_sa_tail(
                                    a,
                                    5,
                                ));
                                crate::wire::lemma_prefix_split(
                                    buf@.skip(p3 as int),
                                    spec_framed(a.s@),
                                    spec_sa_tail(a, 5),
                                );
                                assert(crate::wire::spec_starts_with_framed(
                                    buf@.skip(p3 as int),
                                    a.s@,
                                ));
                            },
                            _ => {},
                        }
                    }
                }
            }
            return Err(e);
        },
    };
    proof {
        assert forall|a: StderrStartActivity|
            #[trigger] spec_starts_with_msg(
                buf@.skip(pos as int),
                StderrItem::StartActivity(a),
            ) implies crate::text::spec_starts_with(buf@.skip(p4 as int), spec_sa_tail(a, 5)) by {
            assert(spec_sa_tail(a, 4) == spec_framed(a.s@) + spec_sa_tail(a, 5));
            crate::wire::lemma_prefix_split(
                buf@.skip(p3 as int),
                spec_framed(a.s@),
                spec_sa_tail(a, 5),
            );
            assert(crate::wire::spec_starts_with_framed(buf@.skip(p3 as int), a.s@));
            assert(buf@.skip(p3 as int).subrange(0, spec_framed(sv@).len() as int) =~= buf@.subrange(
                p3 as int,
                p4 as int,
            ));
            assert(crate::wire::spec_starts_with_framed(buf@.skip(p3 as int), sv@));
            crate::wire::lemma_frame_prefix_unique(buf@.skip(p3 as int), a.s@, sv@);
            assert(buf@.skip(p3 as int).skip(spec_framed(a.s@).len() as int) =~= buf@.skip(
                p4 as int,
            ));
        }
    }
    let r5 = parse_u64_enc(buf, p4);
    let (field_kind, p5) = match r5 {
        Ok(v) => v,
        Err(e) => {
            proof {
                sa_blocked_u64(buf@, pos as int, p4 as int, 5);
            }
            return Err(e);
        },
    };
    proof {
        lemma_auto_spec_u64_to_from_le_bytes();
        assert forall|a: StderrStartActivity|
            #[trigger] spec_starts_with_msg(
                buf@.skip(pos as int),
                StderrItem::StartActivity(a),
            ) implies crate::text::spec_starts_with(buf@.skip(p5 as int), spec_sa_tail(a, 6)) && (
        match a.fields {
            LogField::Int(_) => field_kind == 0,
            LogField::Text(_) => field_kind == 1,
        }) by {
            assert(spec_sa_tail(a, 5) == spec_sa_field(a, 5) + spec_sa_tail(a, 6));
            crate::wire::lemma_prefix_split(
                buf@.skip(p4 as int),
                spec_sa_field(a, 5),
                spec_sa_tail(a, 6),
            );
            assert(buf@.skip(p4 as int).subrange(0, 8) =~= buf@.subrange(p4 as int, p5 as int));
            assert(buf@.skip(p4 as int).skip(8) =~= buf@.skip(p5 as int));
        }
    }
    if field_kind == 0 {
        let r6 = parse_u64_enc(buf, p5);
        let (v, p6) = match r6 {
            Ok(v) => v,
            Err(e) => {
                proof {
                    sa_blocked_kind(buf@, pos as int, p5 as int, field_kind);
                }
                return Err(e);
            },
        };
        let r7 = parse_u64_enc(buf, p6);
        let (parent, p7) = match r7 {
            Ok(v) => v,
            Err(e) => {
                proof {
                    lemma_auto_spec_u64_to_from_le_bytes();
                    assert forall|item: StderrItem| !spec_starts_with_msg(
                        buf@.skip(pos as int),
                        item,
                    ) by {
                        if spec_starts_with_msg(buf@.skip(pos as int), item) {
                            match item {
                                StderrItem::StartActivity(a) => {
                                    match a.fields {
                                        LogField::Int(_) => {
                                            assert(spec_sa_tail(a, 8) == Seq::<u8>::empty());
                                            assert(spec_sa_tail(a, 7) == spec_sa_field(a, 7)
                                                + spec_sa_tail(a, 8));
                                            assert(spec_sa_tail(a, 6) == spec_sa_field(a, 6)
                                                + spec_sa_tail(a, 7));
                                            assert(spec_sa_tail(a, 6).len() == 16);
                                            assert(buf@.skip(p5 as int).len() >= 16);
                                            assert(buf@.skip(p6 as int).len() < 8);
                                        },
                                        LogField::Text(_) => {
                                            assert(field_kind == 1);
                                        },
                                    }
                                },
                                _ => {},
                            }
                        }
                    }
                }
                return Err(e);
            },
        };
        let a = StderrStartActivity { act, lvl, typ, s: sv, fields: LogField::Int(v), parent };
        proof {
            sa_finish(buf@, pos as int, p0 as int, p1 as int, p2 as int, p3 as int, p4 as int,
                p5 as int, p6 as int, p7 as int, a);
        }
        Ok((StderrItem::StartActivity(a), p7))
    } else if field_kind == 1 {
        let r6 = parse_string(buf, p5);
        let (t, p6) = match r6 {
            Ok(v) => v,
            Err(e) => {
                proof {
                    assert forall|item: StderrItem| !spec_starts_with_msg(
                        buf@.skip(pos as int),
                        item,
                    ) by {
                        if spec_starts_with_msg(buf@.skip(pos as int), item) {
                            match item {
                                StderrItem::StartActivity(a) => {
                                    match a.fields {
                                        LogField::Int(_) => {
                                            assert(field_kind == 0);
                                        },
                                        LogField::Text(tx) => {
                                            assert(spec_sa_tail(a, 6) == spec_framed(tx@)
                                                + spec_sa_tail(a, 7));
                                            crate::wire::lemma_prefix_split(
                                                buf@.skip(p5 as int),
                                                spec_framed(tx@),
                                                spec_sa_tail(a, 7),
                                            );
                                            assert(crate::wire::spec_starts_with_framed(
                                                buf@.skip(p5 as int),
                                                tx@,
                                            ));
                                        },
                                    }
                                },
                                _ => {},
                            }
                        }
                    }
                }
                return Err(e);
            },
        };
        let r7 = parse_u64_enc(buf, p6);
        let (parent, p7) = match r7 {
            Ok(v) => v,
            Err(e) => {
                proof {
                    lemma_auto_spec_u64_to_from_le_bytes();
                    assert forall|item: StderrItem| !spec_starts_with_msg(
                        buf@.skip(pos as int),
                        item,
                    ) by {
                        if spec_starts_with_msg(buf@.skip(pos as int), item) {
                            match item {
                                StderrItem::StartActivity(a) => {
                                    match a.fields {
                                        LogField::Int(_) => {
                                            assert(field_kind == 0);
                                        },
                                        LogField::Text(tx) => {
                                            assert(spec_sa_tail(a, 6) == spec_framed(tx@)
                                                + spec_sa_tail(a, 7));
                                            crate::wire::lemma_prefix_split(
                                                buf@.skip(p5 as int),
                                                spec_framed(tx@),
                                                spec_sa_tail(a, 7),
                                            );
                                            assert(crate::wire::spec_starts_with_framed(
                                                buf@.skip(p5 as int),
                                                tx@,
                                            ));
                                            assert(buf@.skip(p5 as int).subrange(
                                                0,
                                                spec_framed(t@).len() as int,
                                            ) =~= buf@.subrange(p5 as int, p6 as int));
                                            assert(crate::wire::spec_starts_with_framed(
                                                buf@.skip(p5 as int),
                                                t@,
                                            ));
                                            crate::wire::lemma_frame_prefix_unique(
                                                buf@.skip(p5 as int),
                                                tx@,
                                                t@,
                                            );
                                            assert(buf@.skip(p5 as int).skip(
                                                spec_framed(tx@).len() as int,
                                            ) =~= buf@.skip(p6 as int));
                                            assert(spec_sa_tail(a, 7).len() == 8);
                                            assert(buf@.skip(p6 as int).len() < 8);
                                        },
                                    }
                                },
                                _ => {},
                            }
                        }
                    }
                }
                return Err(e);
            },
        };
        let a = StderrStartActivity { act, lvl, typ, s: sv, fields: LogField::Text(t), parent };
        proof {
            sa_finish(buf@, pos as int, p0 as int, p1 as int, p2 as int, p3 as int, p4 as int,
                p5 as int, p6 as int, p7 as int, a);
        }
        Ok((StderrItem::StartActivity(a), p7))
    } else {
        proof {
            lemma_auto_spec_u64_to_from_le_bytes();
            assert forall|item: StderrItem| !spec_starts_with_msg(
                buf@.skip(pos as int),
                item,
            ) by {
                if spec_starts_with_msg(buf@.skip(pos as int), item) {
                    match item {
                        StderrItem::StartActivity(a) => {
                            match a.fields {
                                LogField::Int(_) => {
                                    assert(field_kind == 0);
                                },
                                LogField::Text(_) => {
                                    assert(field_kind == 1);
                                },
                            }
                        },
                        _ => {},
                    }
                }
            }
        }
        Err(CacheError::DaemonProtocol)
    }
}

/// A fixed-size field of a hypothetical start-activity payload that
/// does not fit rules every message out.
proof fn sa_blocked_u64(b: Seq<u8>, pos: int, p: int, k: int)
    requires
        0 <= pos <= p <= b.len(),
        p + 8 > b.len(),
        k == 1 || k == 2 || k == 3 || k == 5,
        forall|a: StderrStartActivity|
            #[trigger] spec_starts_with_msg(b.skip(pos), StderrItem::StartActivity(a))
                ==> crate::text::spec_starts_with(b.skip(p), spec_sa_tail(a, k)),
        forall|item: StderrItem|
            #[trigger] spec_starts_with_msg(b.skip(pos), item) ==> spec_item_tag(item)
                == MsgTag::StartActivity,
    ensures
        forall|item: StderrItem| !spec_starts_with_msg(b.skip(pos), item),
{
    lemma_auto_spec_u64_to_from_le_bytes();
    assert forall|item: StderrItem| !spec_starts_with_msg(b.skip(pos), item) by {
        if spec_starts_with_msg(b.skip(pos), item) {
            match item {
                StderrItem::StartActivity(a) => {
                    assert(spec_sa_tail(a, k) == spec_sa_field(a, k) + spec_sa_tail(a, k + 1));
                    assert(spec_sa_field(a, k).len() == 8);
                    assert(b.skip(p).len() < 8);
                },
                _ => {},
            }
        }
    }
}

/// The in-payload field after the kind word that does not fit rules
/// every message out, knowing the kind word that was read.
proof fn sa_blocked_kind(b: Seq<u8>, pos: int, p: int, fk: u64)
    requires
        0 <= pos <= p <= b.len(),
        p + 8 > b.len(),
        fk == 0,
        forall|a: StderrStartActivity|
            #[trigger] spec_starts_with_msg(b.skip(pos), StderrItem::StartActivity(a))
                ==> crate::text::spec_starts_with(b.skip(p), spec_sa_tail(a, 6)) && (match a.fields {
                LogField::Int(_) => fk == 0,
                LogField::Text(_) => fk == 1,
            }),
        forall|item: StderrItem|
            #[trigger] spec_starts_with_msg(b.skip(pos), item) ==> spec_item_tag(item)
                == MsgTag::StartActivity,
    ensures
        forall|item: StderrItem| !spec_starts_with_msg(b.skip(pos), item),
{
    lemma_auto_spec_u64_to_from_le_bytes();
    assert forall|item: StderrItem| !spec_starts_with_msg(b.skip(pos), item) by {
        if spec_starts_with_msg(b.skip(pos), item) {
            match item {
                StderrItem::StartActivity(a) => {
                    match a.fields {
                        LogField::Int(_) => {
                            assert(spec_sa_field(a, 6).len() == 8);
                            assert(spec_sa_tail(a, 6) == spec_sa_field(a, 6) + spec_sa_tail(
                                a,
                                7,
                            ));
                            assert(b.skip(p).len() < 8);
                        },
                        LogField::Text(_) => {
                            assert(fk == 1);
                        },
                    }
                },
                _ => {},
            }
        }
    }
}

/// Advances a hypothetical start-activity payload past one u64 field.
proof fn sa_step_u64(b: Seq<u8>, pos: int, p: int, p2: int, k: int)
    requires
        0 <= pos <= p <= p2 <= b.len(),
        p2 == p + 8,
        k == 1 || k == 2 || k == 3,
        forall|a: StderrStartActivity|
            #[trigger] spec_starts_with_msg(b.skip(pos), StderrItem::StartActivity(a))
                ==> crate::text::spec_starts_with(b.skip(p), spec_sa_tail(a, k)),
    ensures
        forall|a: StderrStartActivity|
            #[trigger] spec_starts_with_msg(b.skip(pos), StderrItem::StartActivity(a))
                ==> crate::text::spec_starts_with(b.skip(p2), spec_sa_tail(a, k + 1)),
{
    lemma_auto_spec_u64_to_from_le_bytes();
    assert forall|a: StderrStartActivity|
        #[trigger] spec_starts_with_msg(b.skip(pos), StderrItem::StartActivity(a)) implies
    crate::text::spec_starts_with(b.skip(p2), spec_sa_tail(a, k + 1)) by {
        assert(spec_sa_tail(a, k) == spec_sa_field(a, k) + spec_sa_tail(a, k + 1));
        assert(spec_sa_field(a, k).len() == 8);
        crate::wire::lemma_prefix_split(b.skip(p), spec_sa_field(a, k), spec_sa_tail(a, k + 1));
        assert(b.skip(p).skip(8) =~= b.skip(p2));
    }
}

/// Assembles the Ok case of a parsed start-activity message.
#[verifier::rlimit(100)]
proof fn sa_finish(
    b: Seq<u8>,
    pos: int,
    p0: int,
    p1: int,
    p2: int,
    p3: int,
    p4: int,
    p5: int,
    p6: int,
    p7: int,
    a: StderrStartActivity,
)
    requires
        0 <= pos <= p0 <= p1 <= p2 <= p3 <= p4 <= p5 <= p6 <= p7 <= b.len(),
        b.subrange(pos, p0) == spec_u64_to_le_bytes(spec_msg_num(MsgTag::StartActivity)),
        b.subrange(p0, p1) == spec_u64_to_le_bytes(a.act),
        b.subrange(p1, p2) == spec_u64_to_le_bytes(a.lvl),
        b.subrange(p2, p3) == spec_u64_to_le_bytes(a.typ),
        b.subrange(p3, p4) == spec_framed(a.s@),
        b.subrange(p4, p5) == (match a.fields {
            LogField::Int(_) => spec_u64_to_le_bytes(0u64),
            LogField::Text(_) => spec_u64_to_le_bytes(1u64),
        }),
        b.subrange(p5, p6) == (match a.fields {
            LogField::Int(v) => spec_u64_to_le_bytes(v),
            LogField::Text(t) => spec_framed(t@),
        }),
        b.subrange(p6, p7) == spec_u64_to_le_bytes(a.parent),
    ensures
        b.subrange(pos, p7) == spec_stderr_enc(StderrItem::StartActivity(a)),
{
    assert(spec_sa_tail(a, 8) == Seq::<u8>::empty());
    assert(spec_sa_tail(a, 7) == spec_sa_field(a, 7) + spec_sa_tail(a, 8));
    assert(spec_sa_tail(a, 6) == spec_sa_field(a, 6) + spec_sa_tail(a, 7));
    assert(spec_sa_tail(a, 5) == spec_sa_field(a, 5) + spec_sa_tail(a, 6));
    assert(spec_sa_tail(a, 4) == spec_sa_field(a, 4) + spec_sa_tail(a, 5));
    assert(spec_sa_tail(a, 3) == spec_sa_field(a, 3) + spec_sa_tail(a, 4));
    assert(spec_sa_tail(a, 2) == spec_sa_field(a, 2) + spec_sa_tail(a, 3));
    assert(spec_sa_tail(a, 1) == spec_sa_field(a, 1) + spec_sa_tail(a, 2));
    assert(b.subrange(pos, p7) =~= b.subrange(pos, p0) + b.subrange(p0, p1) + b.subrange(p1, p2)
        + b.subrange(p2, p3) + b.subrange(p3, p4) + b.subrange(p4, p5) + b.subrange(p5, p6)
        + b.subrange(p6, p7));
    assert(b.subrange(pos, p7) =~= spec_stderr_enc(StderrItem::StartActivity(a)));
}

/// The error arm of the logger parser; `p0` is where the payload
/// begins.
#[verifier::rlimit(100)]
#[verifier::spinoff_prover]
fn parse_error_msg(buf: &[u8], pos: usize, p0: usize) -> (r: Result<
    (StderrItem, usize),
    CacheError,
>)
    requires
        pos <= p0 <= buf@.len(),
        p0 == pos + 8,
        buf@.subrange(pos as int, p0 as int) == spec_u64_to_le_bytes(spec_msg_num(MsgTag::Error)),
        forall|item: StderrItem|
            #[trigger] spec_starts_with_msg(buf@.skip(pos as int), item) ==> spec_item_tag(item)
                == MsgTag::Error && crate::text::spec_starts_with(
                buf@.skip(p0 as int),
                spec_msg_rest(item),
            ),
    ensures
        match r {
            Ok((item, end)) => {
                &&& pos <= end <= buf@.len()
                &&& buf@.subrange(pos as int, end as int) == spec_stderr_enc(item)
            },
            Err(e) => {
                &&& e == CacheError::DaemonProtocol
                &&& forall|item: StderrItem| !spec_starts_with_msg(buf@.skip(pos as int), item)
            },
        },
{
    let blen = buf.len();
    proof {
        assert(buf@.len() == blen);
        assert forall|em: StderrError|
            #[trigger] spec_starts_with_msg(buf@.skip(pos as int), StderrItem::ErrorMsg(em))
            implies crate::text::spec_starts_with(buf@.skip(p0 as int), spec_em_tail(em, 1)) by {}
    }
    let r1 = parse_string(buf, p0);
    let (typ, q1) = match r1 {
        Ok(v) => v,
        Err(e) => {
            proof {
                em_blocked_string(buf@, pos as int, p0 as int, 1);
            }
            return Err(e);
        },
    };
    proof {
        em_step_string(buf@, pos as int, p0 as int, q1 as int, typ@, 1);
    }
    let r2 = parse_u64_enc(buf, q1);
    let (level, q2) = match r2 {
        Ok(v) => v,
        Err(e) => {
            proof {
                em_blocked_u64(buf@, pos as int, q1 as int, 2);
            }
            return Err(e);
        },
    };
    proof {
        em_step_u64(buf@, pos as int, q1 as int, q2 as int, 2);
    }
    let r3 = parse_string(buf, q2);
    let (name, q3) = match r3 {
        Ok(v) => v,
        Err(e) => {
            proof {
                em_blocked_string(buf@, pos as int, q2 as int, 3);
            }
            return Err(e);
        },
    };
    proof {
        em_step_string(buf@, pos as int, q2 as int, q3 as int, name@, 3);
    }
    let r4 = parse_string(buf, q3);
    let (message, q4) = match r4 {
        Ok(v) => v,
        Err(e) => {
            proof {
                em_blocked_string(buf@, pos as int, q3 as int, 4);
            }
            return Err(e);
        },
    };
    proof {
        em_step_string(buf@, pos as int, q3 as int, q4 as int, message@, 4);
    }
    let r5 = parse_u64_enc(buf, q4);
    let (have_pos, q5) = match r5 {
        Ok(v) => v,
        Err(e) => {
            proof {
                em_blocked_u64(buf@, pos as int, q4 as int, 5);
            }
            return Err(e);
        },
    };
    proof {
        em_step_u64(buf@, pos as int, q4 as int, q5 as int, 5);
    }
    let r6 = parse_u64_enc(buf, q5);
    let (traces_len, q6) = match r6 {
        Ok(v) => v,
        Err(e) => {
            proof {
                em_blocked_u64(buf@, pos as int, q5 as int, 6);
            }
            return Err(e);
        },
    };
    proof {
        lemma_auto_spec_u64_to_from_le_bytes();
        // Any hypothetical error message has exactly `traces_len`
        // traces, encoded starting at `q6`.
        assert forall|em: StderrError|
            #[trigger] spec_starts_with_msg(buf@.skip(pos as int), StderrItem::ErrorMsg(em))
            implies em.traces@.len() as u64 == traces_len && em.traces@.len() <= usize::MAX
            && crate::text::spec_starts_with(
            buf@.skip(q6 as int),
            spec_traces_enc(em.traces@, 0),
        ) by {
            assert(spec_em_tail(em, 6) == spec_u64_to_le_bytes(em.traces@.len() as u64)
                + spec_em_tail(em, 7));
            crate::wire::lemma_prefix_split(
                buf@.skip(q5 as int),
                spec_u64_to_le_bytes(em.traces@.len() as u64),
                spec_em_tail(em, 7),
            );
            assert(buf@.skip(q5 as int).subrange(0, 8) =~= buf@.subrange(q5 as int, q6 as int));
            assert(buf@.skip(q5 as int).skip(8) =~= buf@.skip(q6 as int));
            lemma_traces_min_len(em.traces@, 0);
            assert(16 * em.traces@.len() <= spec_traces_enc(em.traces@, 0).len() <= buf@.len());
        }
    }
    if traces_len > usize::MAX as u64 {
        proof {
            assert forall|item: StderrItem| !spec_starts_with_msg(
                buf@.skip(pos as int),
                item,
            ) by {
                if spec_starts_with_msg(buf@.skip(pos as int), item) {
                    match item {
                        StderrItem::ErrorMsg(em) => {
                            assert(em.traces@.len() as u64 == traces_len);
                        },
                        _ => {},
                    }
                }
            }
        }
        return Err(CacheError::DaemonProtocol);
    }
    let n = traces_len as usize;
    let mut traces: Vec<Trace> = Vec::new();
    let mut p = q6;
    let mut i: usize = 0;
    while i < n
        invariant
            i <= n,
            traces@.len() == i,
            q6 <= p <= buf@.len() <= usize::MAX,
            buf@.subrange(q6 as int, p as int) == spec_traces_enc(traces@, 0) + spec_traces_enc(
                traces@,
                traces@.len() as int,
            ),
            forall|em: StderrError|
                #[trigger] spec_starts_with_msg(
                    buf@.skip(pos as int),
                    StderrItem::ErrorMsg(em),
                ) ==> em.traces@.len() == n && crate::text::spec_starts_with(
                    buf@.skip(p as int),
                    spec_traces_enc(em.traces@, i as int),
                ),
            forall|item: StderrItem|
                #[trigger] spec_starts_with_msg(buf@.skip(pos as int), item) ==> spec_item_tag(
                    item,
                ) == MsgTag::Error,
        decreases n - i,
    {
        let ghost old_p = p as int;
        let ghost old_traces = traces@;
        let ra = parse_u64_enc(buf, p);
        let (hp, t1) = match ra {
            Ok(v) => v,
            Err(e) => {
                proof {
                    lemma_auto_spec_u64_to_from_le_bytes();
                    assert forall|item: StderrItem| !spec_starts_with_msg(
                        buf@.skip(pos as int),
                        item,
                    ) by {
                        if spec_starts_with_msg(buf@.skip(pos as int), item) {
                            match item {
                                StderrItem::ErrorMsg(em) => {
                                    assert(spec_traces_enc(em.traces@, i as int)
                                        == spec_u64_to_le_bytes(em.traces@[i as int].have_pos)
                                        + spec_framed(em.traces@[i as int].trace@)
                                        + spec_traces_enc(em.traces@, i + 1));
                                    assert(spec_traces_enc(em.traces@, i as int).len() >= 8);
                                    assert(buf@.skip(p as int).len() < 8);
                                },
                                _ => {},
                            }
                        }
                    }
                }
                return Err(e);
            },
        };
        let rb = parse_string(buf, t1);
        let (tr, t2) = match rb {
            Ok(v) => v,
            Err(e) => {
                proof {
                    lemma_auto_spec_u64_to_from_le_bytes();
                    assert forall|item: StderrItem| !spec_starts_with_msg(
                        buf@.skip(pos as int),
                        item,
                    ) by {
                        if spec_starts_with_msg(buf@.skip(pos as int), item) {
                            match item {
                                StderrItem::ErrorMsg(em) => {
                                    trace_split(buf@, p as int, t1 as int, em.traces@, i as int);
                                },
                                _ => {},
                            }
                        }
                    }
                }
                return Err(e);
            },
        };
        traces.push(Trace { have_pos: hp, trace: tr });
        proof {
            lemma_auto_spec_u64_to_from_le_bytes();
            lemma_traces_enc_snoc(old_traces, traces@[i as int]);
            assert(buf@.subrange(q6 as int, t2 as int) =~= buf@.subrange(q6 as int, old_p)
                + buf@.subrange(old_p, t1 as int) + buf@.subrange(t1 as int, t2 as int));
            assert(traces@.drop_last() =~= old_traces);
            assert forall|em: StderrError|
                #[trigger] spec_starts_with_msg(
                    buf@.skip(pos as int),
                    StderrItem::ErrorMsg(em),
                ) implies em.traces@.len() == n && crate::text::spec_starts_with(
                buf@.skip(t2 as int),
                spec_traces_enc(em.traces@, i + 1),
            ) by {
                trace_split(buf@, p as int, t1 as int, em.traces@, i as int);
                assert(crate::wire::spec_starts_with_framed(
                    buf@.skip(t1 as int),
                    em.traces@[i as int].trace@,
                ));
                assert(buf@.skip(t1 as int).subrange(0, spec_framed(tr@).len() as int)
                    =~= buf@.subrange(t1 as int, t2 as int));
                assert(crate::wire::spec_starts_with_framed(buf@.skip(t1 as int), tr@));
                crate::wire::lemma_frame_prefix_unique(
                    buf@.skip(t1 as int),
                    em.traces@[i as int].trace@,
                    tr@,
                );
                assert(buf@.skip(t1 as int).skip(
                    spec_framed(em.traces@[i as int].trace@).len() as int,
                ) =~= buf@.skip(t2 as int));
            }
        }
        p = t2;
        i = i + 1;
    }
    let e = StderrError { typ, level, name, message, have_pos, traces };
    proof {
        assert(spec_em_tail(e, 7) == spec_traces_enc(e.traces@, 0));
        assert(spec_traces_enc(traces@, traces@.len() as int) =~= Seq::<u8>::empty());
        assert(buf@.subrange(q6 as int, p as int) =~= spec_traces_enc(e.traces@, 0));
        em_finish(buf@, pos as int, p0 as int, q1 as int, q2 as int, q3 as int, q4 as int,
            q5 as int, q6 as int, p as int, e);
    }
    Ok((StderrItem::ErrorMsg(e), p))
}

/// The first encoded byte count of the traces from index `i` on: at
/// least 16 bytes each.
proof fn lemma_traces_min_len(ts: Seq<Trace>, i: int)
    requires
        0 <= i <= ts.len(),
    ensures
        spec_traces_enc(ts, i).len() >= 16 * (ts.len() - i),
    decreases ts.len() - i,
{
    if i < ts.len() {
        lemma_traces_min_len(ts, i + 1);
        crate::wire::lemma_framed_len(ts[i].trace@);
        vstd::bytes::lemma_auto_spec_u64_to_from_le_bytes();
    }
}

/// Splits one hypothetical trace at its parse position.
proof fn trace_split(b: Seq<u8>, p: int, t1: int, ts: Seq<Trace>, i: int)
    requires
        0 <= p <= t1 <= b.len(),
        t1 == p + 8,
        0 <= i < ts.len(),
        crate::text::spec_starts_with(b.skip(p), spec_traces_enc(ts, i)),
    ensures
        crate::wire::spec_starts_with_framed(b.skip(t1), ts[i].trace@),
        crate::text::spec_starts_with(
            b.skip(t1).skip(spec_framed(ts[i].trace@).len() as int),
            spec_traces_enc(ts, i + 1),
        ),
{
    lemma_auto_spec_u64_to_from_le_bytes();
    assert(spec_traces_enc(ts, i) == spec_u64_to_le_bytes(ts[i].have_pos) + (spec_framed(
        ts[i].trace@,
    ) + spec_traces_enc(ts, i + 1))) by {
        assert(spec_traces_enc(ts, i) =~= spec_u64_to_le_bytes(ts[i].have_pos) + (spec_framed(
            ts[i].trace@,
        ) + spec_traces_enc(ts, i + 1)));
    }
    crate::wire::lemma_prefix_split(
        b.skip(p),
        spec_u64_to_le_bytes(ts[i].have_pos),
        spec_framed(ts[i].trace@) + spec_traces_enc(ts, i + 1),
    );
    assert(b.skip(p).skip(8) =~= b.skip(t1));
    crate::wire::lemma_prefix_split(
        b.skip(t1),
        spec_framed(ts[i].trace@),
        spec_traces_enc(ts, i + 1),
    );
}

/// A framed string field of a hypothetical error payload that cannot
/// be parsed rules every message out.
proof fn em_blocked_string(b: Seq<u8>, pos: int, p: int, k: int)
    requires
        0 <= pos <= p <= b.len(),
        k == 1 || k == 3 || k == 4,
        forall|s: Seq<u8>| !crate::wire::spec_starts_with_framed(b.skip(p), s),
        forall|em: StderrError|
            #[trigger] spec_starts_with_msg(b.skip(pos), StderrItem::ErrorMsg(em))
                ==> crate::text::spec_starts_with(b.skip(p), spec_em_tail(em, k)),
        forall|item: StderrItem|
            #[trigger] spec_starts_with_msg(b.skip(pos), item) ==> spec_item_tag(item)
                == MsgTag::Error,
    ensures
        forall|item: StderrItem| !spec_starts_with_msg(b.skip(pos), item),
{
    assert forall|item: StderrItem| !spec_starts_with_msg(b.skip(pos), item) by {
        if spec_starts_with_msg(b.skip(pos), item) {
            match item {
                StderrItem::ErrorMsg(em) => {
                    let payload = if k == 1 {
                        em.typ@
                    } else if k == 3 {
                        em.name@
                    } else {
                        em.message@
                    };
                    assert(spec_em_tail(em, k) == spec_framed(payload) + spec_em_tail(em, k + 1));
                    crate::wire::lemma_prefix_split(
                        b.skip(p),
                        spec_framed(payload),
                        spec_em_tail(em, k + 1),
                    );
                    assert(crate::wire::spec_starts_with_framed(b.skip(p), payload));
                },
                _ => {},
            }
        }
    }
}

/// A u64 field of a hypothetical error payload that does not fit
/// rules every message out.
proof fn em_blocked_u64(b: Seq<u8>, pos: int, p: int, k: int)
    requires
        0 <= pos <= p <= b.len(),
        p + 8 > b.len(),
        k == 2 || k == 5 || k == 6,
        forall|em: StderrError|
            #[trigger] spec_starts_with_msg(b.skip(pos), StderrItem::ErrorMsg(em))
                ==> crate::text::spec_starts_with(b.skip(p), spec_em_tail(em, k)),
        forall|item: StderrItem|
            #[trigger] spec_starts_with_msg(b.skip(pos), item) ==> spec_item_tag(item)
                == MsgTag::Error,
    ensures
        forall|item: StderrItem| !spec_starts_with_msg(b.skip(pos), item),
{
    lemma_auto_spec_u64_to_from_le_bytes();
    assert forall|item: StderrItem| !spec_starts_with_msg(b.skip(pos), item) by {
        if spec_starts_with_msg(b.skip(pos), item) {
            match item {
                StderrItem::ErrorMsg(em) => {
                    assert(spec_em_tail(em, k) == spec_em_field(em, k) + spec_em_tail(em, k + 1));
                    assert(spec_em_field(em, k).len() == 8);
                    assert(b.skip(p).len() < 8);
                },
                _ => {},
            }
        }
    }
}

/// Advances a hypothetical error payload past one framed string
/// field.
proof fn em_step_string(b: Seq<u8>, pos: int, p: int, p2: int, v: Seq<u8>, k: int)
    requires
        0 <= pos <= p <= p2 <= b.len() <= usize::MAX,
        k == 1 || k == 3 || k == 4,
        b.subrange(p, p2) == spec_framed(v),
        forall|em: StderrError|
            #[trigger] spec_starts_with_msg(b.skip(pos), StderrItem::ErrorMsg(em))
                ==> crate::text::spec_starts_with(b.skip(p), spec_em_tail(em, k)),
    ensures
        forall|em: StderrError|
            #[trigger] spec_starts_with_msg(b.skip(pos), StderrItem::ErrorMsg(em))
                ==> crate::text::spec_starts_with(b.skip(p2), spec_em_tail(em, k + 1)),
{
    assert forall|em: StderrError|
        #[trigger] spec_starts_with_msg(b.skip(pos), StderrItem::ErrorMsg(em)) implies
    crate::text::spec_starts_with(b.skip(p2), spec_em_tail(em, k + 1)) by {
        let payload = if k == 1 {
            em.typ@
        } else if k == 3 {
            em.name@
        } else {
            em.message@
        };
        assert(spec_em_tail(em, k) == spec_framed(payload) + spec_em_tail(em, k + 1));
        crate::wire::lemma_prefix_split(b.skip(p), spec_framed(payload), spec_em_tail(em, k + 1));
        assert(crate::wire::spec_starts_with_framed(b.skip(p), payload));
        assert(b.skip(p).subrange(0, spec_framed(v).len() as int) =~= b.subrange(p, p2));
        assert(crate::wire::spec_starts_with_framed(b.skip(p), v));
        crate::wire::lemma_frame_prefix_unique(b.skip(p), payload, v);
        assert(b.skip(p).skip(spec_framed(payload).len() as int) =~= b.skip(p2));
    }
}

/// Advances a hypothetical error payload past one u64 field.
proof fn em_step_u64(b: Seq<u8>, pos: int, p: int, p2: int, k: int)
    requires
        0 <= pos <= p <= p2 <= b.len(),
        p2 == p + 8,
        k == 2 || k == 5,
        forall|em: StderrError|
            #[trigger] spec_starts_with_msg(b.skip(pos), StderrItem::ErrorMsg(em))
                ==> crate::text::spec_starts_with(b.skip(p), spec_em_tail(em, k)),
    ensures
        forall|em: StderrError|
            #[trigger] spec_starts_with_msg(b.skip(pos), StderrItem::ErrorMsg(em))
                ==> crate::text::spec_starts_with(b.skip(p2), spec_em_tail(em, k + 1)),
{
    lemma_auto_spec_u64_to_from_le_bytes();
    assert forall|em: StderrError|
        #[trigger] spec_starts_with_msg(b.skip(pos), StderrItem::ErrorMsg(em)) implies
    crate::text::spec_starts_with(b.skip(p2), spec_em_tail(em, k + 1)) by {
        assert(spec_em_tail(em, k) == spec_em_field(em, k) + spec_em_tail(em, k + 1));
        assert(spec_em_field(em, k).len() == 8);
        crate::wire::lemma_prefix_split(b.skip(p), spec_em_field(em, k), spec_em_tail(em, k + 1));
        assert(b.skip(p).skip(8) =~= b.skip(p2));
    }
}

/// Assembles the Ok case of a parsed error message.
#[verifier::rlimit(100)]
proof fn em_finish(
    b: Seq<u8>,
    pos: int,
    p0: int,
    q1: int,
    q2: int,
    q3: int,
    q4: int,
    q5: int,
    q6: int,
    p: int,
    e: StderrError,
)
    requires
        0 <= pos <= p0 <= q1 <= q2 <= q3 <= q4 <= q5 <= q6 <= p <= b.len(),
        b.subrange(pos, p0) == spec_u64_to_le_bytes(spec_msg_num(MsgTag::Error)),
        b.subrange(p0, q1) == spec_framed(e.typ@),
        b.subrange(q1, q2) == spec_u64_to_le_bytes(e.level),
        b.subrange(q2, q3) == spec_framed(e.name@),
        b.subrange(q3, q4) == spec_framed(e.message@),
        b.subrange(q4, q5) == spec_u64_to_le_bytes(e.have_pos),
        b.subrange(q5, q6) == spec_u64_to_le_bytes(e.traces@.len() as u64),
        b.subrange(q6, p) == spec_traces_enc(e.traces@, 0),
    ensures
        b.subrange(pos, p) == spec_stderr_enc(StderrItem::ErrorMsg(e)),
{
    assert(spec_em_tail(e, 7) == spec_traces_enc(e.traces@, 0));
    assert(spec_em_tail(e, 6) == spec_em_field(e, 6) + spec_em_tail(e, 7));
    assert(spec_em_tail(e, 5) == spec_em_field(e, 5) + spec_em_tail(e, 6));
    assert(spec_em_tail(e, 4) == spec_em_field(e, 4) + spec_em_tail(e, 5));
    assert(spec_em_tail(e, 3) == spec_em_field(e, 3) + spec_em_tail(e, 4));
    assert(spec_em_tail(e, 2) == spec_em_field(e, 2) + spec_em_tail(e, 3));
    assert(spec_em_tail(e, 1) == spec_em_field(e, 1) + spec_em_tail(e, 2));
    assert(b.subrange(pos, p) =~= b.subrange(pos, p0) + b.subrange(p0, q1) + b.subrange(q1, q2)
        + b.subrange(q2, q3) + b.subrange(q3, q4) + b.subrange(q4, q5) + b.subrange(q5, q6)
        + b.subrange(q6, p));
    assert(b.subrange(pos, p) =~= spec_stderr_enc(StderrItem::ErrorMsg(e)));
}

proof fn lemma_concat2(b: Seq<u8>, pos: int, mid: int, end: int)
    requires
        0 <= pos <= mid <= end <= b.len(),
    ensures
        b.subrange(pos, end) == b.subrange(pos, mid) + b.subrange(mid, end),
{
    assert(b.subrange(pos, end) =~= b.subrange(pos, mid) + b.subrange(mid, end));
}

proof fn lemma_traces_enc_snoc(ts: Seq<Trace>, t: Trace)
    ensures
        spec_traces_enc(ts.push(t), 0) == spec_traces_enc(ts, 0) + spec_u64_to_le_bytes(
            t.have_pos,
        ) + spec_framed(t.trace@),
    decreases ts.len(),
{
    let ts2 = ts.push(t);
    if ts.len() == 0 {
        assert(spec_traces_enc(ts2, 0) =~= spec_u64_to_le_bytes(t.have_pos) + spec_framed(
            t.trace@,
        ) + spec_traces_enc(ts2, 1));
        assert(spec_traces_enc(ts2, 1) =~= Seq::<u8>::empty());
        assert(spec_traces_enc(ts, 0) =~= Seq::<u8>::empty());
        assert(spec_traces_enc(ts2, 0) =~= spec_traces_enc(ts, 0) + spec_u64_to_le_bytes(
            t.have_pos,
        ) + spec_framed(t.trace@));
    } else {
        lemma_traces_enc_shift(ts, t, 0);
    }
}

proof fn lemma_traces_enc_shift(ts: Seq<Trace>, t: Trace, i: int)
    requires
        0 <= i <= ts.len(),
    ensures
        spec_traces_enc(ts.push(t), i) == spec_traces_enc(ts, i) + spec_u64_to_le_bytes(
            t.have_pos,
        ) + spec_framed(t.trace@),
    decreases ts.len() - i,
{
    let ts2 = ts.push(t);
    if i == ts.len() {
        assert(spec_traces_enc(ts2, i) =~= spec_u64_to_le_bytes(t.have_pos) + spec_framed(
            t.trace@,
        ) + spec_traces_enc(ts2, i + 1));
        assert(spec_traces_enc(ts2, i + 1) =~= Seq::<u8>::empty());
        assert(spec_traces_enc(ts, i) =~= Seq::<u8>::empty());
        assert(spec_traces_enc(ts2, i) =~= spec_traces_enc(ts, i) + spec_u64_to_le_bytes(
            t.have_pos,
        ) + spec_framed(t.trace@));
    } else {
        lemma_traces_enc_shift(ts, t, i + 1);
        assert(ts2[i] == ts[i]);
        assert(spec_traces_enc(ts2, i) =~= spec_traces_enc(ts, i) + spec_u64_to_le_bytes(
            t.have_pos,
        ) + spec_framed(t.trace@));
    }
}

/// What the drain loop does next with one logger message.
#[derive(PartialEq, Eq, Structural, Clone, Copy, Debug)]
pub enum StderrStep {
    /// Forward the message to the log sink and keep draining.
    Forward,
    /// The terminator: read the operation's response next.
    Finished,
}

/// Decides how the drain loop treats one parsed message: a
/// daemon-reported error aborts the operation, and the caller drops
/// the session.
pub fn stderr_step(item: &StderrItem) -> (r: Result<StderrStep, CacheError>)
    ensures
        match r {
            Ok(StderrStep::Finished) => item is Last,
            Ok(StderrStep::Forward) => !(item is Last) && !(item is ErrorMsg),
            Err(e) => item is ErrorMsg && e == CacheError::DaemonError,
        },
{
    match item {
        StderrItem::Last => Ok(StderrStep::Finished),
        StderrItem::ErrorMsg(_) => Err(CacheError::DaemonError),
        _ => Ok(StderrStep::Forward),
    }
}

/// The connection state the client holds between operations. The
/// socket itself lives with the caller; the state records whether a
/// handshake-completed session exists and what it negotiated.
pub enum SessionState {
    /// No live socket: the next operation must dial and shake hands.
    Disconnected,
    /// A handshake-completed session.
    Connected { version: u64, trusted: bool },
}

impl SessionState {
    /// A fresh client holds no session.
    pub fn new() -> (r: Self)
        ensures
            r is Disconnected,
    {
        SessionState::Disconnected
    }

    /// Whether the next operation must dial first.
    pub fn needs_dial(&self) -> (r: bool)
        ensures
            r == (self is Disconnected),
    {
        match self {
            SessionState::Disconnected => true,
            SessionState::Connected { .. } => false,
        }
    }

    /// Records a completed handshake: the daemon's version was
    /// accepted and the logger drain reached its terminator.
    pub fn on_handshake(&mut self, version: u64, trusted: bool) -> (r: Result<(), CacheError>)
        ensures
            match r {
                Ok(()) => {
                    &&& version >= spec_version_num(ProtocolVersion { major: 1, minor: 38 })
                    &&& *final(self) == (SessionState::Connected { version, trusted })
                },
                Err(e) => {
                    &&& version < spec_version_num(ProtocolVersion { major: 1, minor: 38 })
                    &&& e == CacheError::DaemonProtocol
                    &&& *final(self) is Disconnected
                },
            },
    {
        if !accepts_daemon_version(version) {
            *self = SessionState::Disconnected;
            return Err(CacheError::DaemonProtocol);
        }
        *self = SessionState::Connected { version, trusted };
        Ok(())
    }

    /// Any I/O or protocol error invalidates the session: the socket
    /// is dropped and the next operation reconnects.
    pub fn on_error(&mut self)
        ensures
            *final(self) is Disconnected,
    {
        *self = SessionState::Disconnected;
    }
}

/// Law: crash recovery. After an error invalidates a session, the
/// next operation finds it disconnected and must dial, and a
/// successful handshake yields a fresh connected session whatever
/// went before.
pub fn session_recovers(s: &mut SessionState, version: u64, trusted: bool) -> (r: bool)
    requires
        version >= spec_version_num(ProtocolVersion { major: 1, minor: 38 }),
    ensures
        r,
        *final(s) == (SessionState::Connected { version, trusted }),
{
    s.on_error();
    let must_dial = s.needs_dial();
    let hs = s.on_handshake(version, trusted);
    must_dial && hs.is_ok()
}

} // verus!
