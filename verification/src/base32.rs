//! Hash encodings: hexadecimal decoding and the store's custom base-32,
//! whose 32-character alphabet omits `e`, `o`, `u` and `t`.

use vstd::prelude::*;

use crate::CacheError;

verus! {

/// The custom base-32 alphabet `0123456789abcdfghijklmnpqrsvwxyz`.
pub open spec fn spec_b32_alphabet() -> Seq<u8> {
    seq![
        48u8, 49u8, 50u8, 51u8, 52u8, 53u8, 54u8, 55u8, 56u8, 57u8, 97u8, 98u8, 99u8, 100u8,
        102u8, 103u8, 104u8, 105u8, 106u8, 107u8, 108u8, 109u8, 110u8, 112u8, 113u8, 114u8,
        115u8, 118u8, 119u8, 120u8, 121u8, 122u8,
    ]
}

/// The alphabet character for a 5-bit value.
fn b32_digit(v: u8) -> (r: u8)
    requires
        v < 32,
    ensures
        r == spec_b32_alphabet()[v as int],
{
    match v {
        0 => 48,
        1 => 49,
        2 => 50,
        3 => 51,
        4 => 52,
        5 => 53,
        6 => 54,
        7 => 55,
        8 => 56,
        9 => 57,
        10 => 97,
        11 => 98,
        12 => 99,
        13 => 100,
        14 => 102,
        15 => 103,
        16 => 104,
        17 => 105,
        18 => 106,
        19 => 107,
        20 => 108,
        21 => 109,
        22 => 110,
        23 => 112,
        24 => 113,
        25 => 114,
        26 => 115,
        27 => 118,
        28 => 119,
        29 => 120,
        30 => 121,
        _ => 122,
    }
}

/// The 5-bit group `n` of a byte string read little-endian: the five
/// bits starting at bit `5 * n`, which lie within bytes `5n / 8` and
/// the one after it.
pub open spec fn spec_group5(s: Seq<u8>, n: int) -> u8 {
    let i = (5 * n) / 8;
    let j = (5 * n) % 8;
    let lo = s[i] as u16;
    let hi = if i + 1 < s.len() {
        s[i + 1] as u16
    } else {
        0u16
    };
    ((((lo + 256 * hi) as u16) >> (j as u16)) % 32) as u8
}

/// Number of base-32 characters that encode `n` bytes.
pub open spec fn spec_nix32_len(n: int) -> int {
    (8 * n - 1) / 5 + 1
}

/// The base-32 encoding of a byte string: groups are emitted from most
/// significant to least significant.
pub open spec fn spec_nix32(s: Seq<u8>) -> Seq<u8> {
    Seq::new(
        spec_nix32_len(s.len() as int) as nat,
        |idx: int| spec_b32_alphabet()[spec_group5(s, spec_nix32_len(s.len() as int) - 1 - idx) as int],
    )
}

/// Converts a byte slice to the store's base-32 encoding.
pub fn to_nix_base32(bytes: &[u8]) -> (r: Vec<u8>)
    requires
        1 <= bytes@.len(),
        8 * bytes@.len() <= usize::MAX,
    ensures
        r@ == spec_nix32(bytes@),
{
    let len_out: usize = (bytes.len() * 8 - 1) / 5 + 1;
    let mut out: Vec<u8> = Vec::new();
    let mut idx: usize = 0;
    while idx < len_out
        invariant
            idx <= len_out,
            1 <= bytes@.len(),
            8 * bytes@.len() <= usize::MAX,
            len_out == spec_nix32_len(bytes@.len() as int),
            out@.len() == idx,
            forall|k: int|
                0 <= k < idx ==> out@[k] == spec_nix32(bytes@)[k],
        decreases len_out - idx,
    {
        let n: usize = len_out - 1 - idx;
        let b: usize = n * 5;
        proof {
            assert(5 * (len_out - 1) <= 8 * bytes@.len() - 1) by (nonlinear_arith)
                requires
                    len_out == (8 * bytes@.len() - 1) / 5 + 1,
                    1 <= bytes@.len(),
            ;
            assert(b == 5 * n);
            assert(b / 8 < bytes@.len()) by (nonlinear_arith)
                requires
                    b <= 8 * bytes@.len() - 1,
                    0 <= b,
            ;
        }
        let i: usize = b / 8;
        let j: usize = b % 8;
        let x: u8 = bytes[i];
        let y: u8 = if i + 1 < bytes.len() {
            bytes[i + 1]
        } else {
            0
        };
        let j8: u8 = j as u8;
        let v1: u8 = x >> j8;
        let v2: u8 = if j8 == 0 {
            0
        } else {
            y << (8 - j8)
        };
        let v: u8 = (v1 | v2) % 32;
        proof {
            if j8 == 0 {
                assert((x >> 0u8 | 0u8) % 32 == ((((x as u16) + 256 * (y as u16)) as u16 >> (
                0u16)) % 32) as u8) by (bit_vector);
            } else {
                assert((x >> j8 | (y << (8 - j8) as u8)) % 32 == ((((x as u16) + 256 * (
                y as u16)) as u16 >> (j8 as u16)) % 32) as u8) by (bit_vector)
                    requires
                        0 < j8 < 8,
                ;
            }
            assert(v == spec_group5(bytes@, n as int));
        }
        let d = b32_digit(v);
        out.push(d);
        idx = idx + 1;
        proof {
            assert(out@[idx - 1] == spec_nix32(bytes@)[idx - 1]);
        }
    }
    proof {
        assert(out@ =~= spec_nix32(bytes@));
    }
    out
}

/// The encoding of `n` bytes has `(8n - 1) / 5 + 1` characters, which
/// equals `(8n + 4) / 5` under integer division.
pub proof fn lemma_nix32_len(s: Seq<u8>)
    requires
        1 <= s.len(),
    ensures
        spec_nix32(s).len() == (8 * s.len() - 1) / 5 + 1,
        spec_nix32(s).len() == (8 * s.len() + 4) / 5,
{
    assert((8 * s.len() - 1) / 5 + 1 == (8 * s.len() + 4) / 5) by (nonlinear_arith)
        requires
            1 <= s.len(),
    ;
}

/// The value of a hexadecimal digit, or `None` for any other byte.
pub open spec fn spec_hex_val(c: u8) -> Option<u8> {
    if 65 <= c <= 70 {
        Some((c - 65 + 10) as u8)
    } else if 97 <= c <= 102 {
        Some((c - 97 + 10) as u8)
    } else if 48 <= c <= 57 {
        Some((c - 48) as u8)
    } else {
        None
    }
}

/// Decodes one hexadecimal digit, upper or lower case.
fn val(c: u8) -> (r: Result<u8, CacheError>)
    ensures
        match r {
            Ok(v) => spec_hex_val(c) == Some(v),
            Err(e) => spec_hex_val(c) is None && e == CacheError::BadRequest,
        },
{
    if 65 <= c && c <= 70 {
        Ok(c - 65 + 10)
    } else if 97 <= c && c <= 102 {
        Ok(c - 97 + 10)
    } else if 48 <= c && c <= 57 {
        Ok(c - 48)
    } else {
        Err(CacheError::BadRequest)
    }
}

/// Whether a byte string is well-formed hexadecimal: even length, all
/// digits valid.
pub open spec fn spec_hex_ok(s: Seq<u8>) -> bool {
    s.len() % 2 == 0 && (forall|k: int| 0 <= k < s.len() ==> spec_hex_val(#[trigger] s[k]) is Some)
}

/// The bytes a well-formed hexadecimal string denotes.
pub open spec fn spec_hex_decode(s: Seq<u8>) -> Seq<u8> {
    Seq::new(
        (s.len() / 2) as nat,
        |k: int| (16 * spec_hex_val(s[2 * k]).unwrap() + spec_hex_val(s[2 * k + 1]).unwrap()) as u8,
    )
}

/// Decodes a hexadecimal byte string, rejecting odd lengths and
/// non-digit bytes.
pub fn from_hex(hex: &[u8]) -> (r: Result<Vec<u8>, CacheError>)
    ensures
        match r {
            Ok(v) => spec_hex_ok(hex@) && v@ == spec_hex_decode(hex@),
            Err(e) => !spec_hex_ok(hex@) && e == CacheError::BadRequest,
        },
{
    if hex.len() % 2 != 0 {
        return Err(CacheError::BadRequest);
    }
    let mut out: Vec<u8> = Vec::new();
    let mut k: usize = 0;
    while k < hex.len() / 2
        invariant
            hex@.len() % 2 == 0,
            k <= hex@.len() / 2,
            out@.len() == k,
            forall|t: int| 0 <= t < k ==> spec_hex_val(#[trigger] hex@[2 * t]) is Some,
            forall|t: int| 0 <= t < k ==> spec_hex_val(#[trigger] hex@[2 * t + 1]) is Some,
            forall|t: int| 0 <= t < k ==> out@[t] == spec_hex_decode(hex@)[t],
        decreases hex@.len() / 2 - k,
    {
        let hi = val(hex[2 * k])?;
        let lo = val(hex[2 * k + 1])?;
        out.push(16 * hi + lo);
        k = k + 1;
    }
    proof {
        assert forall|t: int| 0 <= t < hex@.len() implies spec_hex_val(#[trigger] hex@[t]) is Some by {
            if t % 2 == 0 {
                assert(hex@[2 * (t / 2)] == hex@[t]);
            } else {
                assert(hex@[2 * (t / 2) + 1] == hex@[t]);
            }
        }
        assert(out@ =~= spec_hex_decode(hex@));
    }
    Ok(out)
}

/// The lowercase hexadecimal digit for a 4-bit value.
pub open spec fn spec_hex_digit(v: u8) -> u8 {
    if v < 10 {
        (48 + v) as u8
    } else {
        (97 + v - 10) as u8
    }
}

/// The lowercase hexadecimal encoding of a byte string.
pub open spec fn spec_hex_encode(s: Seq<u8>) -> Seq<u8> {
    Seq::new(
        (2 * s.len()) as nat,
        |k: int|
            if k % 2 == 0 {
                spec_hex_digit(s[k / 2] / 16)
            } else {
                spec_hex_digit(s[k / 2] % 16)
            },
    )
}

/// Encodes bytes as lowercase hexadecimal.
pub fn hex_encode(bytes: &[u8]) -> (r: Vec<u8>)
    requires
        2 * bytes@.len() <= usize::MAX,
    ensures
        r@ == spec_hex_encode(bytes@),
{
    let mut out: Vec<u8> = Vec::new();
    let mut i: usize = 0;
    while i < bytes.len()
        invariant
            i <= bytes@.len(),
            2 * bytes@.len() <= usize::MAX,
            out@.len() == 2 * i,
            forall|k: int| 0 <= k < 2 * i ==> out@[k] == spec_hex_encode(bytes@)[k],
        decreases bytes@.len() - i,
    {
        let b = bytes[i];
        let hi = b / 16;
        let lo = b % 16;
        let hid = if hi < 10 {
            48 + hi
        } else {
            97 + hi - 10
        };
        let lod = if lo < 10 {
            48 + lo
        } else {
            97 + lo - 10
        };
        out.push(hid);
        out.push(lod);
        proof {
            assert(out@[2 * i] == spec_hex_encode(bytes@)[2 * i]);
            assert(out@[2 * i + 1] == spec_hex_encode(bytes@)[2 * i + 1]);
        }
        i = i + 1;
    }
    proof {
        assert(out@ =~= spec_hex_encode(bytes@));
    }
    out
}

/// Hexadecimal decoding inverts hexadecimal encoding: for any byte
/// string `b`, the encoding is well-formed and decodes back to `b`.
pub proof fn lemma_hex_round_trip(b: Seq<u8>)
    ensures
        spec_hex_ok(spec_hex_encode(b)),
        spec_hex_decode(spec_hex_encode(b)) == b,
{
    let e = spec_hex_encode(b);
    assert forall|k: int| 0 <= k < e.len() implies spec_hex_val(#[trigger] e[k]) is Some by {
        if k % 2 == 0 {
            assert(e[k] == spec_hex_digit(b[k / 2] / 16));
        } else {
            assert(e[k] == spec_hex_digit(b[k / 2] % 16));
        }
    }
    assert forall|t: int| 0 <= t < b.len() implies spec_hex_decode(e)[t] == b[t] by {
        assert(e[2 * t] == spec_hex_digit(b[t] / 16));
        assert(e[2 * t + 1] == spec_hex_digit(b[t] % 16));
        assert(spec_hex_val(spec_hex_digit(b[t] / 16)) == Some((b[t] / 16) as u8));
        assert(spec_hex_val(spec_hex_digit(b[t] % 16)) == Some((b[t] % 16) as u8));
    }
    assert(spec_hex_decode(e) =~= b);
}

/// When re-encoding hexadecimal as base-32 succeeds: well-formed hex,
/// non-empty, and small enough for the machine.
pub open spec fn spec_convert_ok(h: Seq<u8>) -> bool {
    &&& spec_hex_ok(h)
    &&& h.len() >= 2
    &&& 4 * h.len() <= usize::MAX
}

/// Re-encodes a hexadecimal hash string in the store's base-32.
pub fn convert_base16_to_nix32(hash: &[u8]) -> (r: Result<Vec<u8>, CacheError>)
    ensures
        match r {
            Ok(v) => spec_convert_ok(hash@) && v@ == spec_nix32(spec_hex_decode(hash@)),
            Err(e) => !spec_convert_ok(hash@) && e == CacheError::BadRequest,
        },
{
    if hash.len() < 2 || hash.len() > usize::MAX / 4 {
        return Err(CacheError::BadRequest);
    }
    let bytes = from_hex(hash)?;
    proof {
        assert(8 * bytes@.len() == 4 * hash@.len());
    }
    Ok(to_nix_base32(bytes.as_slice()))
}

} // verus!
