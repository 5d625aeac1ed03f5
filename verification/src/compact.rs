//! Little-endian integers and the compact length prefix of the SCALE format.
//! The compact prefix itself is written and read by `parity-scale-codec`.

use parity_scale_codec::{Compact, Decode, Encode};
use vstd::prelude::*;

verus! {

/// The two bytes of `value`, low byte first.
pub open spec fn u16_le(value: u16) -> Seq<u8> {
    seq![(value % 256) as u8, (value / 256) as u8]
}

/// The four bytes of `value`, low byte first.
#[verifier::opaque]
pub open spec fn u32_le(value: u32) -> Seq<u8> {
    seq![
        (value % 256) as u8,
        (value / 0x100 % 256) as u8,
        (value / 0x1_0000 % 256) as u8,
        (value / 0x100_0000) as u8,
    ]
}

/// The eight bytes of `value`, low byte first: its low half, then its high half.
pub open spec fn u64_le(value: u64) -> Seq<u8> {
    u32_le((value % 0x1_0000_0000) as u32) + u32_le((value / 0x1_0000_0000) as u32)
}

/// The number that the first two bytes of `bytes` spell, low byte first.
pub open spec fn le_u16(bytes: Seq<u8>) -> u16 {
    (bytes[0] + 0x100 * bytes[1]) as u16
}

/// The number that the first four bytes of `bytes` spell, low byte first.
#[verifier::opaque]
pub open spec fn le_u32(bytes: Seq<u8>) -> u32 {
    (bytes[0] + 0x100 * bytes[1] + 0x1_0000 * bytes[2] + 0x100_0000 * bytes[3]) as u32
}

/// The number that the first eight bytes of `bytes` spell, low byte first.
pub open spec fn le_u64(bytes: Seq<u8>) -> u64 {
    (le_u32(bytes) + 0x1_0000_0000 * le_u32(bytes.skip(4))) as u64
}

/// The compact form of a length: one byte below 2^6, two below 2^14, four below
/// 2^30, five from there on. The two low bits of the first byte tell which.
pub open spec fn compact_encoding(n: u32) -> Seq<u8> {
    if n < 0x40 {
        seq![(4 * n) as u8]
    } else if n < 0x4000 {
        u16_le((4 * n + 1) as u16)
    } else if n < 0x4000_0000 {
        u32_le((4 * n + 2) as u32)
    } else {
        seq![3u8] + u32_le(n)
    }
}

/// The length that stands in compact form at the front of `bytes`, and how many
/// bytes it takes. A length that is not in its shortest form is not accepted.
pub open spec fn compact_decoding(bytes: Seq<u8>) -> Option<(u32, nat)> {
    if bytes.len() == 0 {
        None
    } else if bytes[0] % 4 == 0 {
        Some(((bytes[0] / 4) as u32, 1))
    } else if bytes[0] % 4 == 1 {
        if bytes.len() >= 2 && le_u16(bytes) / 4 >= 0x40 {
            Some(((le_u16(bytes) / 4) as u32, 2))
        } else {
            None
        }
    } else if bytes[0] % 4 == 2 {
        if bytes.len() >= 4 && le_u32(bytes) / 4 >= 0x4000 {
            Some(((le_u32(bytes) / 4) as u32, 4))
        } else {
            None
        }
    } else {
        if bytes[0] == 3 && bytes.len() >= 5 && le_u32(bytes.skip(1)) >= 0x4000_0000 {
            Some((le_u32(bytes.skip(1)), 5))
        } else {
            None
        }
    }
}

/// Calls `Compact::<u32>::encode` of `parity-scale-codec`. Claimed: the bytes
/// it returns are the compact form of `n` as `compact_encoding` spells it out.
#[verifier::external_body]
fn scale_compact_encode(n: u32) -> (bytes: Vec<u8>)
    ensures
        bytes@ == compact_encoding(n),
{
    Compact(n).encode()
}

/// Calls `Compact::<u32>::decode` of `parity-scale-codec` on a byte slice.
/// Claimed: it succeeds exactly where `compact_decoding` finds a length, returns
/// that length, and leaves the input behind the bytes that it read.
#[verifier::external_body]
fn scale_compact_decode<'a>(bytes: &'a [u8]) -> (read: Option<(u32, &'a [u8])>)
    ensures
        match read {
            Some((n, rest)) => compact_decoding(bytes@) matches Some((m, used)) && m == n && rest@
                == bytes@.skip(used as int),
            None => compact_decoding(bytes@) is None,
        },
{
    let mut input: &[u8] = bytes;
    match Compact::<u32>::decode(&mut input) {
        Ok(Compact(n)) => Some((n, input)),
        Err(_) => None,
    }
}

/// Two bytes are the digits, to the base 256, of the number that they spell.
proof fn lemma_digits2(b0: int, b1: int)
    requires
        0 <= b0 < 256,
        0 <= b1 < 256,
    ensures
        (b0 + 0x100 * b1) % 256 == b0,
        (b0 + 0x100 * b1) / 256 == b1,
        (b0 + 0x100 * b1) % 4 == b0 % 4,
        0 <= b0 + 0x100 * b1 < 0x1_0000,
{
}

/// A number below 2^16 is spelled by its two digits to the base 256.
proof fn lemma_spell2(v: int)
    requires
        0 <= v < 0x1_0000,
    ensures
        v == v % 256 + 0x100 * (v / 256),
        0 <= v / 256 < 256,
{
}

/// Four bytes are the digits, to the base 256, of the number that they spell.
proof fn lemma_digits4(b0: int, b1: int, b2: int, b3: int)
    requires
        0 <= b0 < 256,
        0 <= b1 < 256,
        0 <= b2 < 256,
        0 <= b3 < 256,
    ensures
        ({
            let v = b0 + 0x100 * b1 + 0x1_0000 * b2 + 0x100_0000 * b3;
            &&& 0 <= v < 0x1_0000_0000
            &&& v % 256 == b0
            &&& v / 0x100 % 256 == b1
            &&& v / 0x1_0000 % 256 == b2
            &&& v / 0x100_0000 == b3
            &&& v % 4 == b0 % 4
        }),
{
    let low = b0 + 0x100 * b1;
    let high = b2 + 0x100 * b3;
    lemma_digits2(b0, b1);
    lemma_digits2(b2, b3);
    let v = low + 0x1_0000 * high;
    assert(v % 0x1_0000 == low);
    assert(v / 0x1_0000 == high);
    assert(v % 256 == low % 256);
    assert(v / 0x100 % 256 == low / 256);
    assert(v / 0x100_0000 == high / 256);
}

/// A number below 2^32 is spelled by its four digits to the base 256.
proof fn lemma_spell4(v: int)
    requires
        0 <= v < 0x1_0000_0000,
    ensures
        v == v % 256 + 0x100 * (v / 0x100 % 256) + 0x1_0000 * (v / 0x1_0000 % 256) + 0x100_0000 * (v
            / 0x100_0000),
        0 <= v / 0x100_0000 < 256,
{
    let low = v % 0x1_0000;
    let high = v / 0x1_0000;
    lemma_spell2(low);
    lemma_spell2(high);
    assert(low % 256 == v % 256);
    assert(low / 256 == v / 0x100 % 256);
    assert(high % 256 == v / 0x1_0000 % 256);
    assert(high / 256 == v / 0x100_0000);
}

/// Spelling a number in two bytes and reading them back are inverse to each other.
pub proof fn lemma_u16_le(value: u16, bytes: Seq<u8>)
    ensures
        u16_le(value).len() == 2,
        le_u16(u16_le(value)) == value,
        bytes.len() >= 2 ==> u16_le(le_u16(bytes)) == bytes.subrange(0, 2),
        bytes.len() >= 2 ==> le_u16(bytes) % 4 == bytes[0] % 4,
{
    lemma_spell2(value as int);
    if bytes.len() >= 2 {
        lemma_digits2(bytes[0] as int, bytes[1] as int);
        assert(u16_le(le_u16(bytes)) =~= bytes.subrange(0, 2));
    }
}

/// Spelling a number in four bytes and reading them back are inverse to each
/// other, and only the first four bytes are read.
pub proof fn lemma_u32_le(value: u32, bytes: Seq<u8>)
    ensures
        u32_le(value).len() == 4,
        le_u32(u32_le(value)) == value,
        bytes.len() >= 4 ==> u32_le(le_u32(bytes)) == bytes.subrange(0, 4),
        bytes.len() >= 4 ==> le_u32(bytes) % 4 == bytes[0] % 4,
        bytes.len() >= 4 ==> le_u32(bytes) == le_u32(bytes.subrange(0, 4)),
{
    reveal(u32_le);
    reveal(le_u32);
    lemma_spell4(value as int);
    if bytes.len() >= 4 {
        lemma_digits4(bytes[0] as int, bytes[1] as int, bytes[2] as int, bytes[3] as int);
        assert(u32_le(le_u32(bytes)) =~= bytes.subrange(0, 4));
    }
}

/// Two halves of 32 bits are the digits, to the base 2^32, of the number that they spell.
proof fn lemma_halves(low: int, high: int)
    requires
        0 <= low < 0x1_0000_0000,
        0 <= high < 0x1_0000_0000,
    ensures
        (low + 0x1_0000_0000 * high) % 0x1_0000_0000 == low,
        (low + 0x1_0000_0000 * high) / 0x1_0000_0000 == high,
        0 <= low + 0x1_0000_0000 * high < 0x1_0000_0000_0000_0000,
{
}

/// Reading back the eight bytes of a number gives the number.
pub proof fn lemma_u64_le_value(value: u64)
    ensures
        u64_le(value).len() == 8,
        le_u64(u64_le(value)) == value,
{
    let low = (value % 0x1_0000_0000) as u32;
    let high = (value / 0x1_0000_0000) as u32;
    let spelled = u64_le(value);
    lemma_u32_le(low, spelled);
    lemma_u32_le(high, spelled.skip(4));
    assert(spelled.subrange(0, 4) =~= u32_le(low));
    assert(spelled.skip(4).subrange(0, 4) =~= u32_le(high));
}

/// Spelling the number that eight bytes spell gives those bytes, and only the
/// first eight bytes are read.
pub proof fn lemma_u64_le_bytes(bytes: Seq<u8>)
    requires
        bytes.len() >= 8,
    ensures
        u64_le(le_u64(bytes)) == bytes.subrange(0, 8),
        le_u64(bytes) == le_u64(bytes.subrange(0, 8)),
{
    let tail = bytes.skip(4);
    lemma_u32_le(0, bytes);
    lemma_u32_le(0, tail);
    lemma_halves(le_u32(bytes) as int, le_u32(tail) as int);
    assert(bytes.subrange(0, 4) + tail.subrange(0, 4) =~= bytes.subrange(0, 8));
    let front = bytes.subrange(0, 8);
    lemma_u32_le(0, front);
    lemma_u32_le(0, front.skip(4));
    assert(front.subrange(0, 4) =~= bytes.subrange(0, 4));
    assert(front.skip(4).subrange(0, 4) =~= tail.subrange(0, 4));
}

/// A decoded compact length never reaches past the input.
pub proof fn lemma_compact_decoding_bound(bytes: Seq<u8>)
    ensures
        compact_decoding(bytes) matches Some((_, used)) ==> 1 <= used <= bytes.len(),
{
}

/// Reading back a compact length gives the length, whatever follows it.
pub proof fn lemma_compact_round_trip(n: u32, rest: Seq<u8>)
    ensures
        compact_decoding(compact_encoding(n) + rest) == Some((n, compact_encoding(n).len())),
        1 <= compact_encoding(n).len() <= 5,
{
    let bytes = compact_encoding(n) + rest;
    if n < 0x40 {
        assert(bytes[0] == (4 * n) as u8);
    } else if n < 0x4000 {
        let v = (4 * n + 1) as u16;
        lemma_u16_le(v, bytes);
        assert(bytes.subrange(0, 2) =~= u16_le(v));
        assert(le_u16(bytes) == le_u16(bytes.subrange(0, 2)));
    } else if n < 0x4000_0000 {
        let v = (4 * n + 2) as u32;
        lemma_u32_le(v, bytes);
        assert(bytes.subrange(0, 4) =~= u32_le(v));
    } else {
        let tail = bytes.skip(1);
        lemma_u32_le(n, tail);
        assert(bytes[0] == 3);
        assert(tail.subrange(0, 4) =~= u32_le(n));
    }
}

/// What decodes as a compact length is the compact form of that length: no
/// length has two encodings.
pub proof fn lemma_compact_canonical(bytes: Seq<u8>)
    ensures
        compact_decoding(bytes) matches Some((n, used)) ==> used <= bytes.len() && bytes.subrange(
            0,
            used as int,
        ) == compact_encoding(n),
{
    if let Some((n, used)) = compact_decoding(bytes) {
        let front = bytes.subrange(0, used as int);
        if bytes[0] % 4 == 0 {
            assert(front =~= compact_encoding(n));
        } else if bytes[0] % 4 == 1 {
            lemma_u16_le(0, bytes);
            assert(4 * n + 1 == le_u16(bytes));
        } else if bytes[0] % 4 == 2 {
            lemma_u32_le(0, bytes);
            assert(4 * n + 2 == le_u32(bytes));
        } else {
            let tail = bytes.skip(1);
            lemma_u32_le(0, tail);
            assert(front =~= seq![3u8] + tail.subrange(0, 4));
        }
    }
}

/// Appends the compact form of `n` to `dest`.
pub fn encode_compact(n: u32, dest: &mut Vec<u8>)
    ensures
        final(dest)@ == old(dest)@ + compact_encoding(n),
{
    let mut bytes = scale_compact_encode(n);
    dest.append(&mut bytes);
}

/// Reads a compact length off the front of `bytes`: the length, and how many
/// bytes it took.
pub fn decode_compact(bytes: &[u8]) -> (read: Option<(u32, usize)>)
    ensures
        match read {
            Some((n, used)) => compact_decoding(bytes@) == Some((n, used as nat)),
            None => compact_decoding(bytes@) is None,
        },
{
    match scale_compact_decode(bytes) {
        Some((n, rest)) => {
            proof {
                lemma_compact_decoding_bound(bytes@);
            }
            Some((n, bytes.len() - rest.len()))
        },
        None => None,
    }
}

} // verus!
