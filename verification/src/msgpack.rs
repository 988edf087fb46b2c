//! The MessagePack primitives that the cache format is built from: their
//! byte-level meaning as spec functions, the calls into `rmp` that write and
//! read them, and the proofs that reading gives back what was written.

use vstd::prelude::*;
use vstd::utf8::*;

verus! {

/// Big-endian bytes of a 16-bit value.
pub open spec fn be16_bytes(v: u16) -> Seq<u8> {
    seq![(v >> 8u16) as u8, v as u8]
}

/// Big-endian bytes of a 32-bit value.
pub open spec fn be32_bytes(v: u32) -> Seq<u8> {
    seq![(v >> 24u32) as u8, (v >> 16u32) as u8, (v >> 8u32) as u8, v as u8]
}

/// Big-endian bytes of a 64-bit value.
pub open spec fn be64_bytes(v: u64) -> Seq<u8> {
    seq![
        (v >> 56u64) as u8, (v >> 48u64) as u8, (v >> 40u64) as u8, (v >> 32u64) as u8,
        (v >> 24u64) as u8, (v >> 16u64) as u8, (v >> 8u64) as u8, v as u8,
    ]
}

/// The 16-bit value stored big-endian at `b[i..i + 2]`.
pub open spec fn be16_at(b: Seq<u8>, i: int) -> u16 {
    ((b[i] as u16) << 8u16) | (b[i + 1] as u16)
}

/// The 32-bit value stored big-endian at `b[i..i + 4]`.
pub open spec fn be32_at(b: Seq<u8>, i: int) -> u32 {
    ((b[i] as u32) << 24u32) | ((b[i + 1] as u32) << 16u32) | ((b[i + 2] as u32) << 8u32) | (b[i + 3] as u32)
}

/// The 64-bit value stored big-endian at `b[i..i + 8]`.
pub open spec fn be64_at(b: Seq<u8>, i: int) -> u64 {
    ((b[i] as u64) << 56u64) | ((b[i + 1] as u64) << 48u64) | ((b[i + 2] as u64) << 40u64)
        | ((b[i + 3] as u64) << 32u64) | ((b[i + 4] as u64) << 24u64) | ((b[i + 5] as u64) << 16u64)
        | ((b[i + 6] as u64) << 8u64) | (b[i + 7] as u64)
}

proof fn lemma_be16(v: u16, rest: Seq<u8>)
    ensures
        be16_at(be16_bytes(v) + rest, 0) == v,
{
    let b = be16_bytes(v) + rest;
    assert(b[0] == (v >> 8u16) as u8 && b[1] == v as u8);
    let b0 = b[0];
    let b1 = b[1];
    assert(b0 == (v >> 8u16) as u8 && b1 == v as u8 ==> ((b0 as u16) << 8u16) | (b1 as u16) == v)
        by (bit_vector);
}

proof fn lemma_be32(v: u32, rest: Seq<u8>)
    ensures
        be32_at(be32_bytes(v) + rest, 0) == v,
{
    let b = be32_bytes(v) + rest;
    let (b0, b1, b2, b3) = (b[0], b[1], b[2], b[3]);
    assert(b0 == (v >> 24u32) as u8 && b1 == (v >> 16u32) as u8 && b2 == (v >> 8u32) as u8 && b3 == v as u8);
    assert(b0 == (v >> 24u32) as u8 && b1 == (v >> 16u32) as u8 && b2 == (v >> 8u32) as u8 && b3 == v as u8
        ==> ((b0 as u32) << 24u32) | ((b1 as u32) << 16u32) | ((b2 as u32) << 8u32) | (b3 as u32) == v)
        by (bit_vector);
}

proof fn lemma_be64(v: u64, rest: Seq<u8>)
    ensures
        be64_at(be64_bytes(v) + rest, 0) == v,
{
    let b = be64_bytes(v) + rest;
    let (b0, b1, b2, b3, b4, b5, b6, b7) = (b[0], b[1], b[2], b[3], b[4], b[5], b[6], b[7]);
    assert(b0 == (v >> 56u64) as u8 && b1 == (v >> 48u64) as u8 && b2 == (v >> 40u64) as u8
        && b3 == (v >> 32u64) as u8 && b4 == (v >> 24u64) as u8 && b5 == (v >> 16u64) as u8
        && b6 == (v >> 8u64) as u8 && b7 == v as u8);
    assert(b0 == (v >> 56u64) as u8 && b1 == (v >> 48u64) as u8 && b2 == (v >> 40u64) as u8
        && b3 == (v >> 32u64) as u8 && b4 == (v >> 24u64) as u8 && b5 == (v >> 16u64) as u8
        && b6 == (v >> 8u64) as u8 && b7 == v as u8
        ==> ((b0 as u64) << 56u64) | ((b1 as u64) << 48u64) | ((b2 as u64) << 40u64)
            | ((b3 as u64) << 32u64) | ((b4 as u64) << 24u64) | ((b5 as u64) << 16u64)
            | ((b6 as u64) << 8u64) | (b7 as u64) == v)
        by (bit_vector);
}

// ---------------------------------------------------------------------------
// What the writers produce.

/// The bytes `rmp::encode::write_uint` writes for `v`: the shortest of
/// positive fixint, uint 8, uint 16, uint 32 and uint 64.
pub open spec fn uint_bytes(v: u64) -> Seq<u8> {
    if v < 128 {
        seq![v as u8]
    } else if v < 256 {
        seq![0xccu8, v as u8]
    } else if v < 0x1_0000 {
        seq![0xcdu8] + be16_bytes(v as u16)
    } else if v < 0x1_0000_0000 {
        seq![0xceu8] + be32_bytes(v as u32)
    } else {
        seq![0xcfu8] + be64_bytes(v)
    }
}

/// The byte `rmp::encode::write_bool` writes for `v`.
pub open spec fn bool_bytes(v: bool) -> Seq<u8> {
    if v {
        seq![0xc3u8]
    } else {
        seq![0xc2u8]
    }
}

/// The header `rmp::encode::write_array_len` writes for an array of `n`
/// elements: fixarray, array 16 or array 32.
pub open spec fn array_header_bytes(n: u32) -> Seq<u8> {
    if n < 16 {
        seq![(0x90u32 + n) as u8]
    } else if n < 0x1_0000 {
        seq![0xdcu8] + be16_bytes(n as u16)
    } else {
        seq![0xddu8] + be32_bytes(n)
    }
}

/// The header `rmp::encode::write_str_len` writes for a string of `n` bytes:
/// fixstr, str 8, str 16 or str 32.
pub open spec fn str_header_bytes(n: u32) -> Seq<u8> {
    if n < 32 {
        seq![(0xa0u32 + n) as u8]
    } else if n < 256 {
        seq![0xd9u8, n as u8]
    } else if n < 0x1_0000 {
        seq![0xdau8] + be16_bytes(n as u16)
    } else {
        seq![0xdbu8] + be32_bytes(n)
    }
}

/// A string short enough for a MessagePack str header: at most `u32::MAX`
/// bytes of UTF-8.
pub open spec fn str_fits(s: Seq<char>) -> bool {
    encode_utf8(s).len() <= u32::MAX
}

/// The bytes `rmp::encode::write_str` writes for `s`: the header for its UTF-8
/// length, then its UTF-8 bytes.
pub open spec fn str_bytes(s: Seq<char>) -> Seq<u8> {
    str_header_bytes(encode_utf8(s).len() as u32) + encode_utf8(s)
}

// ---------------------------------------------------------------------------
// What the readers accept. Each gives the value read and the bytes after it.

/// What `rmp::decode::read_int::<u64>` accepts at the start of `b`: any
/// integer encoding whose value is not negative.
pub open spec fn parse_uint(b: Seq<u8>) -> Option<(u64, Seq<u8>)> {
    if b.len() == 0 {
        None
    } else {
        let m = b[0];
        if m < 0x80 {
            Some((m as u64, b.skip(1)))
        } else if m == 0xcc || m == 0xd0 {
            if b.len() >= 2 && (m == 0xcc || b[1] < 0x80) {
                Some((b[1] as u64, b.skip(2)))
            } else {
                None
            }
        } else if m == 0xcd || m == 0xd1 {
            if b.len() >= 3 && (m == 0xcd || b[1] < 0x80) {
                Some((be16_at(b, 1) as u64, b.skip(3)))
            } else {
                None
            }
        } else if m == 0xce || m == 0xd2 {
            if b.len() >= 5 && (m == 0xce || b[1] < 0x80) {
                Some((be32_at(b, 1) as u64, b.skip(5)))
            } else {
                None
            }
        } else if m == 0xcf || m == 0xd3 {
            if b.len() >= 9 && (m == 0xcf || b[1] < 0x80) {
                Some((be64_at(b, 1), b.skip(9)))
            } else {
                None
            }
        } else {
            None
        }
    }
}

/// What `rmp::decode::read_bool` accepts at the start of `b`.
pub open spec fn parse_bool(b: Seq<u8>) -> Option<(bool, Seq<u8>)> {
    if b.len() == 0 {
        None
    } else if b[0] == 0xc3 {
        Some((true, b.skip(1)))
    } else if b[0] == 0xc2 {
        Some((false, b.skip(1)))
    } else {
        None
    }
}

/// What `rmp::decode::read_array_len` accepts at the start of `b`.
pub open spec fn parse_array_header(b: Seq<u8>) -> Option<(u32, Seq<u8>)> {
    if b.len() == 0 {
        None
    } else {
        let m = b[0];
        if 0x90 <= m <= 0x9f {
            Some(((m - 0x90) as u32, b.skip(1)))
        } else if m == 0xdc {
            if b.len() >= 3 {
                Some((be16_at(b, 1) as u32, b.skip(3)))
            } else {
                None
            }
        } else if m == 0xdd {
            if b.len() >= 5 {
                Some((be32_at(b, 1), b.skip(5)))
            } else {
                None
            }
        } else {
            None
        }
    }
}

/// The str header at the start of `b`: the string's length in bytes and the
/// bytes after the header.
pub open spec fn parse_str_header(b: Seq<u8>) -> Option<(u32, Seq<u8>)> {
    if b.len() == 0 {
        None
    } else {
        let m = b[0];
        if 0xa0 <= m <= 0xbf {
            Some(((m - 0xa0) as u32, b.skip(1)))
        } else if m == 0xd9 {
            if b.len() >= 2 {
                Some((b[1] as u32, b.skip(2)))
            } else {
                None
            }
        } else if m == 0xda {
            if b.len() >= 3 {
                Some((be16_at(b, 1) as u32, b.skip(3)))
            } else {
                None
            }
        } else if m == 0xdb {
            if b.len() >= 5 {
                Some((be32_at(b, 1), b.skip(5)))
            } else {
                None
            }
        } else {
            None
        }
    }
}
/// What `rmp::decode::read_map_len` accepts at the start of `b`: a map
/// header and its number of key-value pairs.
pub open spec fn parse_map_header(b: Seq<u8>) -> Option<(u32, Seq<u8>)> {
    if b.len() == 0 {
        None
    } else {
        let m = b[0];
        if 0x80 <= m <= 0x8f {
            Some(((m - 0x80) as u32, b.skip(1)))
        } else if m == 0xde {
            if b.len() >= 3 {
                Some((be16_at(b, 1) as u32, b.skip(3)))
            } else {
                None
            }
        } else if m == 0xdf {
            if b.len() >= 5 {
                Some((be32_at(b, 1), b.skip(5)))
            } else {
                None
            }
        } else {
            None
        }
    }
}

/// What `rmp::decode::read_bin_len` accepts at the start of `b`: a bin
/// header and the length of the bytes it announces.
pub open spec fn parse_bin_header(b: Seq<u8>) -> Option<(u32, Seq<u8>)> {
    if b.len() == 0 {
        None
    } else {
        let m = b[0];
        if m == 0xc4 {
            if b.len() >= 2 {
                Some((b[1] as u32, b.skip(2)))
            } else {
                None
            }
        } else if m == 0xc5 {
            if b.len() >= 3 {
                Some((be16_at(b, 1) as u32, b.skip(3)))
            } else {
                None
            }
        } else if m == 0xc6 {
            if b.len() >= 5 {
                Some((be32_at(b, 1), b.skip(5)))
            } else {
                None
            }
        } else {
            None
        }
    }
}

/// What `rmp::decode::read_ext_meta` accepts at the start of `b`: an ext
/// header with its type byte, and the length of the data that follows.
pub open spec fn parse_ext_header(b: Seq<u8>) -> Option<(u32, Seq<u8>)> {
    if b.len() == 0 {
        None
    } else {
        let m = b[0];
        if 0xd4 <= m <= 0xd8 {
            if b.len() >= 2 {
                let size: u32 = if m == 0xd4 { 1 } else if m == 0xd5 { 2 } else if m == 0xd6 { 4 } else if m == 0xd7 { 8 } else { 16 };
                Some((size, b.skip(2)))
            } else {
                None
            }
        } else if m == 0xc7 {
            if b.len() >= 3 {
                Some((b[1] as u32, b.skip(3)))
            } else {
                None
            }
        } else if m == 0xc8 {
            if b.len() >= 4 {
                Some((be16_at(b, 1) as u32, b.skip(4)))
            } else {
                None
            }
        } else if m == 0xc9 {
            if b.len() >= 6 {
                Some((be32_at(b, 1), b.skip(6)))
            } else {
                None
            }
        } else {
            None
        }
    }
}

/// The header of a str or a bin at the start of `b`.
pub open spec fn parse_raw_header(b: Seq<u8>) -> Option<(u32, Seq<u8>)> {
    match parse_str_header(b) {
        Some(p) => Some(p),
        None => parse_bin_header(b),
    }
}

/// The bytes of a str or a bin at the start of `b`, unchecked.
pub open spec fn parse_raw(b: Seq<u8>) -> Option<(Seq<u8>, Seq<u8>)> {
    match parse_raw_header(b) {
        Some((n, r)) => if n <= r.len() {
            Some((r.take(n as int), r.skip(n as int)))
        } else {
            None
        },
        None => None,
    }
}

/// A text value: a str or a bin whose bytes are valid UTF-8, as a string
/// field accepts it.
pub open spec fn parse_text(b: Seq<u8>) -> Option<(Seq<char>, Seq<u8>)> {
    match parse_raw(b) {
        Some((body, r)) => if valid_utf8(body) {
            Some((decode_utf8(body), r))
        } else {
            None
        },
        None => None,
    }
}

/// Skips `n` bytes.
pub open spec fn skip_bytes(b: Seq<u8>, n: nat) -> Option<Seq<u8>> {
    if n <= b.len() {
        Some(b.skip(n as int))
    } else {
        None
    }
}

/// The bytes after the value at the start of `b`, whatever it is, read with
/// the nesting budget `c`: every array, map and ext spends one, and none may
/// be entered with a budget of 1 or less.
pub open spec fn skip_value(b: Seq<u8>, c: nat) -> Option<Seq<u8>>
    decreases c, 0nat,
{
    if b.len() == 0 {
        None
    } else {
        let m = b[0];
        if m <= 0x7f || m >= 0xe0 || m == 0xc0 || m == 0xc2 || m == 0xc3 {
            Some(b.skip(1))
        } else if m == 0xcc || m == 0xd0 {
            skip_bytes(b, 2)
        } else if m == 0xcd || m == 0xd1 {
            skip_bytes(b, 3)
        } else if m == 0xce || m == 0xd2 || m == 0xca {
            skip_bytes(b, 5)
        } else if m == 0xcf || m == 0xd3 || m == 0xcb {
            skip_bytes(b, 9)
        } else if parse_raw_header(b) is Some {
            match parse_raw(b) {
                Some((_, r)) => Some(r),
                None => None,
            }
        } else if parse_array_header(b) is Some {
            let (n, r) = parse_array_header(b).unwrap();
            if c <= 1 {
                None
            } else {
                skip_values(r, n as nat, (c - 1) as nat)
            }
        } else if parse_map_header(b) is Some {
            let (n, r) = parse_map_header(b).unwrap();
            if c <= 1 {
                None
            } else {
                skip_values(r, 2 * (n as nat), (c - 1) as nat)
            }
        } else if parse_ext_header(b) is Some {
            let (n, r) = parse_ext_header(b).unwrap();
            if c <= 1 {
                None
            } else {
                skip_bytes(r, n as nat)
            }
        } else {
            None
        }
    }
}

/// The bytes after `n` values one after another.
pub open spec fn skip_values(b: Seq<u8>, n: nat, c: nat) -> Option<Seq<u8>>
    decreases c, n,
{
    if n == 0 {
        Some(b)
    } else {
        match skip_values(b, (n - 1) as nat, c) {
            Some(r) => skip_value(r, c),
            None => None,
        }
    }
}

/// Once skipping the first `i` values fails, skipping more fails too.
pub proof fn lemma_skip_values_stops(b: Seq<u8>, i: nat, n: nat, c: nat)
    requires
        i <= n,
        skip_values(b, i, c) is None,
    ensures
        skip_values(b, n, c) is None,
    decreases n,
{
    if i < n {
        lemma_skip_values_stops(b, i, (n - 1) as nat, c);
    }
}

// ---------------------------------------------------------------------------
// The skipper passes over whole values.

/// Skipping passes over exactly the integer `parse_uint` reads, at any
/// budget: the value read and the value skipped end at the same byte.
pub proof fn lemma_skip_passes_uint(b: Seq<u8>, c: nat)
    requires
        parse_uint(b) is Some,
    ensures
        skip_value(b, c) == Some(parse_uint(b).unwrap().1),
{
}

/// Skipping passes over exactly the boolean `parse_bool` reads.
pub proof fn lemma_skip_passes_bool(b: Seq<u8>, c: nat)
    requires
        parse_bool(b) is Some,
    ensures
        skip_value(b, c) == Some(parse_bool(b).unwrap().1),
{
}

/// Skipping passes over exactly the str or bin `parse_raw` reads, whether
/// or not its bytes are UTF-8.
pub proof fn lemma_skip_passes_raw(b: Seq<u8>, c: nat)
    requires
        parse_raw(b) is Some,
    ensures
        skip_value(b, c) == Some(parse_raw(b).unwrap().1),
{
}

/// Nil and every negative fixint are values of one byte.
pub proof fn lemma_skip_one_byte_values(m: u8, rest: Seq<u8>, c: nat)
    requires
        m == 0xc0 || m >= 0xe0,
    ensures
        skip_value(seq![m] + rest, c) == Some(rest),
{
    assert((seq![m] + rest)[0] == m);
    assert((seq![m] + rest).skip(1) =~= rest);
}

/// Every integer, boolean and string the writers produce is skipped whole,
/// at any budget, leaving exactly what followed it.
pub proof fn lemma_skip_written_values(v: u64, x: bool, s: Seq<char>, rest: Seq<u8>, c: nat)
    requires
        str_fits(s),
    ensures
        skip_value(uint_bytes(v) + rest, c) == Some(rest),
        skip_value(bool_bytes(x) + rest, c) == Some(rest),
        skip_value(str_bytes(s) + rest, c) == Some(rest),
{
    lemma_uint_roundtrip(v, rest);
    lemma_skip_passes_uint(uint_bytes(v) + rest, c);
    lemma_bool_roundtrip(x, rest);
    lemma_skip_passes_bool(bool_bytes(x) + rest, c);
    lemma_text_roundtrip(s, rest);
    lemma_skip_passes_raw(str_bytes(s) + rest, c);
}

// ---------------------------------------------------------------------------
// Reading back what was written.

pub proof fn lemma_uint_roundtrip(v: u64, rest: Seq<u8>)
    ensures
        parse_uint(uint_bytes(v) + rest) == Some((v, rest)),
{
    let b = uint_bytes(v) + rest;
    if v < 128 {
        assert(v < 128 ==> (v as u8) < 0x80 && ((v as u8) as u64) == v) by (bit_vector);
        assert(b[0] == v as u8);
        assert(b.skip(1) =~= rest);
    } else if v < 256 {
        assert(v < 256 ==> ((v as u8) as u64) == v) by (bit_vector);
        assert(b[0] == 0xcc && b[1] == v as u8);
        assert(b.skip(2) =~= rest);
    } else if v < 0x1_0000 {
        assert(v < 0x1_0000 ==> ((v as u16) as u64) == v) by (bit_vector);
        lemma_be16(v as u16, rest);
        assert(b.skip(1) =~= be16_bytes(v as u16) + rest);
        assert(be16_at(b, 1) == be16_at(b.skip(1), 0));
        assert(b.skip(3) =~= rest);
    } else if v < 0x1_0000_0000 {
        assert(v < 0x1_0000_0000 ==> ((v as u32) as u64) == v) by (bit_vector);
        lemma_be32(v as u32, rest);
        assert(b.skip(1) =~= be32_bytes(v as u32) + rest);
        assert(be32_at(b, 1) == be32_at(b.skip(1), 0));
        assert(b.skip(5) =~= rest);
    } else {
        lemma_be64(v, rest);
        assert(b.skip(1) =~= be64_bytes(v) + rest);
        assert(be64_at(b, 1) == be64_at(b.skip(1), 0));
        assert(b.skip(9) =~= rest);
    }
}

pub proof fn lemma_bool_roundtrip(v: bool, rest: Seq<u8>)
    ensures
        parse_bool(bool_bytes(v) + rest) == Some((v, rest)),
{
    let b = bool_bytes(v) + rest;
    assert(b[0] == bool_bytes(v)[0]);
    assert(b.skip(1) =~= rest);
}

pub proof fn lemma_array_header_roundtrip(n: u32, rest: Seq<u8>)
    ensures
        parse_array_header(array_header_bytes(n) + rest) == Some((n, rest)),
{
    let b = array_header_bytes(n) + rest;
    if n < 16 {
        assert(n < 16 ==> 0x90 <= ((0x90u32 + n) as u8) <= 0x9f && (((0x90u32 + n) as u8) - 0x90) as u32 == n)
            by (bit_vector);
        assert(b[0] == (0x90u32 + n) as u8);
        assert(b.skip(1) =~= rest);
    } else if n < 0x1_0000 {
        assert(n < 0x1_0000 ==> ((n as u16) as u32) == n) by (bit_vector);
        lemma_be16(n as u16, rest);
        assert(b.skip(1) =~= be16_bytes(n as u16) + rest);
        assert(be16_at(b, 1) == be16_at(b.skip(1), 0));
        assert(b.skip(3) =~= rest);
    } else {
        lemma_be32(n, rest);
        assert(b.skip(1) =~= be32_bytes(n) + rest);
        assert(be32_at(b, 1) == be32_at(b.skip(1), 0));
        assert(b.skip(5) =~= rest);
    }
}

proof fn lemma_str_header_roundtrip(n: u32, rest: Seq<u8>)
    ensures
        parse_str_header(str_header_bytes(n) + rest) == Some((n, rest)),
{
    let b = str_header_bytes(n) + rest;
    if n < 32 {
        assert(n < 32 ==> 0xa0 <= ((0xa0u32 + n) as u8) <= 0xbf && (((0xa0u32 + n) as u8) - 0xa0) as u32 == n)
            by (bit_vector);
        assert(b[0] == (0xa0u32 + n) as u8);
        assert(b.skip(1) =~= rest);
    } else if n < 256 {
        assert(n < 256 ==> ((n as u8) as u32) == n) by (bit_vector);
        assert(b[0] == 0xd9 && b[1] == n as u8);
        assert(b.skip(2) =~= rest);
    } else if n < 0x1_0000 {
        assert(n < 0x1_0000 ==> ((n as u16) as u32) == n) by (bit_vector);
        lemma_be16(n as u16, rest);
        assert(b.skip(1) =~= be16_bytes(n as u16) + rest);
        assert(be16_at(b, 1) == be16_at(b.skip(1), 0));
        assert(b.skip(3) =~= rest);
    } else {
        lemma_be32(n, rest);
        assert(b.skip(1) =~= be32_bytes(n) + rest);
        assert(be32_at(b, 1) == be32_at(b.skip(1), 0));
        assert(b.skip(5) =~= rest);
    }
}

pub proof fn lemma_text_roundtrip(s: Seq<char>, rest: Seq<u8>)
    requires
        str_fits(s),
    ensures
        parse_text(str_bytes(s) + rest) == Some((s, rest)),
{
    let u = encode_utf8(s);
    let n = u.len() as u32;
    let h = str_header_bytes(n);
    let b = str_bytes(s) + rest;
    assert(b =~= h + (u + rest));
    lemma_str_header_roundtrip(n, u + rest);
    assert((u + rest).take(n as int) =~= u);
    assert((u + rest).skip(n as int) =~= rest);
    encode_utf8_valid_utf8(s);
    encode_utf8_decode_utf8(s);
}

/// A text value read by `parse_text` fits a str header again.
pub proof fn lemma_parse_text_fits(b: Seq<u8>)
    ensures
        parse_text(b) is Some ==> str_fits(parse_text(b).unwrap().0),
{
    if parse_text(b) is Some {
        let (body, r) = parse_raw(b).unwrap();
        decode_utf8_encode_utf8(body);
    }
}

// ---------------------------------------------------------------------------
// Arrays: a header with the element count, then the elements one after another.

/// The elements of `l`, each encoded by `f`, one after another.
pub open spec fn items_bytes<T>(l: Seq<T>, f: spec_fn(T) -> Seq<u8>) -> Seq<u8>
    decreases l.len(),
{
    if l.len() == 0 {
        seq![]
    } else {
        items_bytes(l.drop_last(), f) + f(l.last())
    }
}

/// An array of the elements of `l`, each encoded by `f`.
pub open spec fn array_bytes<T>(l: Seq<T>, f: spec_fn(T) -> Seq<u8>) -> Seq<u8> {
    array_header_bytes(l.len() as u32) + items_bytes(l, f)
}

/// Reads `n` elements one after another with `p`, each from the bytes the
/// previous one left.
pub open spec fn parse_items<T>(b: Seq<u8>, n: nat, p: spec_fn(Seq<u8>) -> Option<(T, Seq<u8>)>) -> Option<(Seq<T>, Seq<u8>)>
    decreases n,
{
    if n == 0 {
        Some((seq![], b))
    } else {
        match parse_items(b, (n - 1) as nat, p) {
            Some((xs, r)) => match p(r) {
                Some((x, r2)) => Some((xs.push(x), r2)),
                None => None,
            },
            None => None,
        }
    }
}

/// Once reading the first `i` elements fails, reading more fails too.
pub proof fn lemma_parse_items_stops<T>(b: Seq<u8>, i: nat, n: nat, p: spec_fn(Seq<u8>) -> Option<(T, Seq<u8>)>)
    requires
        i <= n,
        parse_items(b, i, p) is None,
    ensures
        parse_items(b, n, p) is None,
    decreases n,
{
    if i < n {
        lemma_parse_items_stops(b, i, (n - 1) as nat, p);
    }
}

pub proof fn lemma_items_roundtrip<T>(
    l: Seq<T>,
    f: spec_fn(T) -> Seq<u8>,
    p: spec_fn(Seq<u8>) -> Option<(T, Seq<u8>)>,
    rest: Seq<u8>,
)
    requires
        forall|i: int, r: Seq<u8>| 0 <= i < l.len() ==> #[trigger] p(f(l[i]) + r) == Some((l[i], r)),
    ensures
        parse_items(items_bytes(l, f) + rest, l.len(), p) == Some((l, rest)),
    decreases l.len(),
{
    if l.len() > 0 {
        let init = l.drop_last();
        let x = l.last();
        assert forall|i: int, r: Seq<u8>| 0 <= i < init.len() implies #[trigger] p(f(init[i]) + r) == Some((init[i], r)) by {
            assert(init[i] == l[i]);
            assert(p(f(l[i]) + r) == Some((l[i], r)));
        }
        lemma_items_roundtrip(init, f, p, f(x) + rest);
        assert(items_bytes(l, f) + rest =~= items_bytes(init, f) + (f(x) + rest));
        assert(p(f(l[l.len() - 1]) + rest) == Some((l[l.len() - 1], rest)));
        assert(init.push(x) =~= l);
    } else {
        assert(items_bytes(l, f) + rest =~= rest);
        assert(l =~= seq![]);
    }
}

/// Every element read by `parse_items` is one `p` can give, and there are
/// exactly `n` of them.
pub proof fn lemma_parse_items_all<T>(
    b: Seq<u8>,
    n: nat,
    p: spec_fn(Seq<u8>) -> Option<(T, Seq<u8>)>,
    good: spec_fn(T) -> bool,
)
    requires
        forall|x: Seq<u8>| #[trigger] p(x) is Some ==> good(p(x).unwrap().0),
    ensures
        parse_items(b, n, p) is Some ==> {
            let l = parse_items(b, n, p).unwrap().0;
            l.len() == n && forall|i: int| 0 <= i < l.len() ==> #[trigger] good(l[i])
        },
    decreases n,
{
    if n > 0 {
        lemma_parse_items_all(b, (n - 1) as nat, p, good);
        if parse_items(b, n, p) is Some {
            let (xs, r) = parse_items(b, (n - 1) as nat, p).unwrap();
            assert(p(r) is Some);
            let l = parse_items(b, n, p).unwrap().0;
            assert(l == xs.push(p(r).unwrap().0));
            assert forall|i: int| 0 <= i < l.len() implies #[trigger] good(l[i]) by {
                if i < xs.len() {
                    assert(l[i] == xs[i]);
                }
            }
        }
    }
}

// ---------------------------------------------------------------------------
// The calls into `rmp`. Writing into a `Vec` cannot fail, so the writers'
// results carry nothing.

/// `rmp::encode::write_uint`: appends the shortest MessagePack encoding of `v`.
#[verifier::external_body]
pub(crate) fn write_uint(out: &mut Vec<u8>, v: u64)
    ensures
        final(out)@ == old(out)@ + uint_bytes(v),
{
    let _ = rmp::encode::write_uint(out, v);
}

/// `rmp::encode::write_bool`: appends the one-byte encoding of `v`.
#[verifier::external_body]
pub(crate) fn write_bool(out: &mut Vec<u8>, v: bool)
    ensures
        final(out)@ == old(out)@ + bool_bytes(v),
{
    let _ = rmp::encode::write_bool(out, v);
}

/// `rmp::encode::write_array_len`: appends the shortest array header for `n`
/// elements.
#[verifier::external_body]
pub(crate) fn write_array_len(out: &mut Vec<u8>, n: u32)
    ensures
        final(out)@ == old(out)@ + array_header_bytes(n),
{
    let _ = rmp::encode::write_array_len(out, n);
}

/// `rmp::encode::write_str`: appends the shortest str header for the UTF-8
/// length of `s`, then its UTF-8 bytes. The header holds that length cast to
/// `u32`, so the claim is made only for strings whose length fits.
#[verifier::external_body]
pub(crate) fn write_str(out: &mut Vec<u8>, s: &str)
    requires
        str_fits(s@),
    ensures
        final(out)@ == old(out)@ + str_bytes(s@),
{
    let _ = rmp::encode::write_str(out, s);
}

/// `rmp::decode::read_int::<u64>` on a byte slice: the integer at the start
/// of `input` and the bytes after it, or `None` where `parse_uint` rejects.
#[verifier::external_body]
pub(crate) fn read_uint(input: &[u8]) -> (r: Option<(u64, &[u8])>)
    ensures
        match parse_uint(input@) {
            Some((v, rest)) => r matches Some((w, rest2)) && w == v && rest2@ == rest,
            None => r is None,
        },
{
    let mut rd = input;
    match rmp::decode::read_int::<u64, _>(&mut rd) {
        Ok(v) => Some((v, rd)),
        Err(_) => None,
    }
}

/// `rmp::decode::read_bool` on a byte slice.
#[verifier::external_body]
pub(crate) fn read_bool(input: &[u8]) -> (r: Option<(bool, &[u8])>)
    ensures
        match parse_bool(input@) {
            Some((v, rest)) => r matches Some((w, rest2)) && w == v && rest2@ == rest,
            None => r is None,
        },
{
    let mut rd = input;
    match rmp::decode::read_bool(&mut rd) {
        Ok(v) => Some((v, rd)),
        Err(_) => None,
    }
}

/// `rmp::decode::read_array_len` on a byte slice.
#[verifier::external_body]
pub(crate) fn read_array_len(input: &[u8]) -> (r: Option<(u32, &[u8])>)
    ensures
        match parse_array_header(input@) {
            Some((v, rest)) => r matches Some((w, rest2)) && w == v && rest2@ == rest,
            None => r is None,
        },
{
    let mut rd = input;
    match rmp::decode::read_array_len(&mut rd) {
        Ok(v) => Some((v, rd)),
        Err(_) => None,
    }
}

/// `rmp::decode::read_map_len` on a byte slice.
#[verifier::external_body]
pub(crate) fn read_map_len(input: &[u8]) -> (r: Option<(u32, &[u8])>)
    ensures
        match parse_map_header(input@) {
            Some((v, rest)) => r matches Some((w, rest2)) && w == v && rest2@ == rest,
            None => r is None,
        },
{
    let mut rd = input;
    match rmp::decode::read_map_len(&mut rd) {
        Ok(v) => Some((v, rd)),
        Err(_) => None,
    }
}

/// `rmp::decode::read_str_len` on a byte slice.
#[verifier::external_body]
pub(crate) fn read_str_len(input: &[u8]) -> (r: Option<(u32, &[u8])>)
    ensures
        match parse_str_header(input@) {
            Some((v, rest)) => r matches Some((w, rest2)) && w == v && rest2@ == rest,
            None => r is None,
        },
{
    let mut rd = input;
    match rmp::decode::read_str_len(&mut rd) {
        Ok(v) => Some((v, rd)),
        Err(_) => None,
    }
}

/// `rmp::decode::read_bin_len` on a byte slice.
#[verifier::external_body]
pub(crate) fn read_bin_len(input: &[u8]) -> (r: Option<(u32, &[u8])>)
    ensures
        match parse_bin_header(input@) {
            Some((v, rest)) => r matches Some((w, rest2)) && w == v && rest2@ == rest,
            None => r is None,
        },
{
    let mut rd = input;
    match rmp::decode::read_bin_len(&mut rd) {
        Ok(v) => Some((v, rd)),
        Err(_) => None,
    }
}

/// `rmp::decode::read_ext_meta` on a byte slice: the data length of the ext
/// at the start of `input`, and the bytes after its type byte.
#[verifier::external_body]
pub(crate) fn read_ext_meta(input: &[u8]) -> (r: Option<(u32, &[u8])>)
    ensures
        match parse_ext_header(input@) {
            Some((v, rest)) => r matches Some((w, rest2)) && w == v && rest2@ == rest,
            None => r is None,
        },
{
    let mut rd = input;
    match rmp::decode::read_ext_meta(&mut rd) {
        Ok(meta) => Some((meta.size, rd)),
        Err(_) => None,
    }
}

/// `std::str::from_utf8`: the text `bytes` spell, or `None` where they are
/// not valid UTF-8.
#[verifier::external_body]
pub(crate) fn utf8_text(bytes: &[u8]) -> (r: Option<&str>)
    ensures
        match r {
            Some(s) => valid_utf8(bytes@) && s@ == decode_utf8(bytes@),
            None => !valid_utf8(bytes@),
        },
{
    std::str::from_utf8(bytes).ok()
}

// ---------------------------------------------------------------------------
// Reading and skipping composite values.

/// The header and the unchecked bytes of a str or a bin.
pub(crate) fn read_raw(input: &[u8]) -> (r: Option<(&[u8], &[u8])>)
    ensures
        match parse_raw(input@) {
            Some((body, rest)) => r matches Some((b2, rest2)) && b2@ == body && rest2@ == rest,
            None => r is None,
        },
{
    let (n, r) = match read_str_len(input) {
        Some(p) => p,
        None => match read_bin_len(input) {
            Some(p) => p,
            None => return None,
        },
    };
    if (n as usize) <= r.len() {
        let (body, rest) = r.split_at(n as usize);
        assert(body@ =~= r@.take(n as int));
        assert(rest@ =~= r@.skip(n as int));
        Some((body, rest))
    } else {
        None
    }
}

/// A text value as a string field takes it: a str or a bin of valid UTF-8.
pub(crate) fn read_text(input: &[u8]) -> (r: Option<(String, &[u8])>)
    ensures
        match parse_text(input@) {
            Some((v, rest)) => r matches Some((w, rest2)) && w@ == v && rest2@ == rest,
            None => r is None,
        },
{
    let (body, rest) = match read_raw(input) {
        Some(p) => p,
        None => return None,
    };
    match utf8_text(body) {
        Some(s) => Some((s.to_owned(), rest)),
        None => None,
    }
}

fn skip_n(input: &[u8], n: usize) -> (r: Option<&[u8]>)
    ensures
        match skip_bytes(input@, n as nat) {
            Some(rest) => r matches Some(rest2) && rest2@ == rest,
            None => r is None,
        },
{
    if n <= input.len() {
        let (_, rest) = input.split_at(n);
        assert(rest@ =~= input@.skip(n as int));
        Some(rest)
    } else {
        None
    }
}

/// Skips the value at the start of `input` with the nesting budget `c`.
pub(crate) fn skip_value_exec(input: &[u8], c: u32) -> (r: Option<&[u8]>)
    ensures
        match skip_value(input@, c as nat) {
            Some(rest) => r matches Some(rest2) && rest2@ == rest,
            None => r is None,
        },
    decreases c,
{
    if input.len() == 0 {
        return None;
    }
    let m = input[0];
    if m <= 0x7f || m >= 0xe0 || m == 0xc0 || m == 0xc2 || m == 0xc3 {
        skip_n(input, 1)
    } else if m == 0xcc || m == 0xd0 {
        skip_n(input, 2)
    } else if m == 0xcd || m == 0xd1 {
        skip_n(input, 3)
    } else if m == 0xce || m == 0xd2 || m == 0xca {
        skip_n(input, 5)
    } else if m == 0xcf || m == 0xd3 || m == 0xcb {
        skip_n(input, 9)
    } else if (0xa0 <= m && m <= 0xbf) || m == 0xd9 || m == 0xda || m == 0xdb || m == 0xc4 || m == 0xc5
        || m == 0xc6 {
        match read_raw(input) {
            Some((_, rest)) => Some(rest),
            None => None,
        }
    } else if (0x90 <= m && m <= 0x9f) || m == 0xdc || m == 0xdd || (0x80 <= m && m <= 0x8f) || m == 0xde
        || m == 0xdf {
        let is_array = (0x90 <= m && m <= 0x9f) || m == 0xdc || m == 0xdd;
        let (n, r0) = if is_array {
            match read_array_len(input) {
                Some((n, r)) => (n as u64, r),
                None => return None,
            }
        } else {
            match read_map_len(input) {
                Some((n, r)) => (2 * (n as u64), r),
                None => return None,
            }
        };
        if c <= 1 {
            return None;
        }
        let mut cur = r0;
        let mut i: u64 = 0;
        while i < n
            invariant
                i <= n,
                c > 1,
                skip_value(input@, c as nat) == skip_values(r0@, n as nat, (c - 1) as nat),
                skip_values(r0@, i as nat, (c - 1) as nat) == Some(cur@),
            decreases n - i,
        {
            match skip_value_exec(cur, c - 1) {
                Some(rest) => {
                    cur = rest;
                },
                None => {
                    proof {
                        lemma_skip_values_stops(r0@, (i + 1) as nat, n as nat, (c - 1) as nat);
                    }
                    return None;
                },
            }
            i += 1;
        }
        Some(cur)
    } else if (0xd4 <= m && m <= 0xd8) || m == 0xc7 || m == 0xc8 || m == 0xc9 {
        let (n, r) = match read_ext_meta(input) {
            Some(p) => p,
            None => return None,
        };
        if c <= 1 {
            return None;
        }
        skip_n(r, n as usize)
    } else {
        None
    }
}

} // verus!
