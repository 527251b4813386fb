//! The decoder: a recursive-descent reader of the MessagePack wire format.
//!
//! [`parse`] consumes exactly one value from the front of a byte slice and
//! returns it together with the number of bytes it occupied, or a
//! [`ParseError`] carrying the offset of the first byte that made decoding
//! impossible.  Its behaviour is exactly [`spec_parse`](crate::wire::spec_parse).

use vstd::prelude::*;
use vstd::slice::slice_subrange;
use vstd::slice::slice_to_vec;
use vstd::utf8::decode_utf8;
use vstd::utf8::valid_utf8;

use crate::wire::SpecMsgPack;
use crate::wire::be16;
use crate::wire::be32;
use crate::wire::be64;
use crate::wire::ext_type_of_byte;
use crate::wire::lemma_pairs_snoc;
use crate::wire::sign_extend;
use crate::wire::spec_f32_to_f64_bits;
use crate::wire::spec_norm;
use crate::wire::spec_parse;
use crate::wire::spec_parse_str_payload;
use crate::wire::spec_parse_values;
use crate::wire::spec_pairs;
use crate::MapElement;
use crate::Extension;
use crate::MsgPack;
use crate::ParseError;
use crate::deep_entries;
use crate::deep_seq;
use crate::lemma_array_view;
use crate::lemma_mapping_view;

verus! {

/// The value of the first byte of `raw`.
pub fn read_8(raw: &[u8]) -> (r: u64)
    requires
        raw@.len() >= 1,
    ensures
        r == raw@[0] as u64,
        r <= 0xff,
{
    raw[0] as u64
}

/// The value of the first two bytes of `raw`, read big-endian.
pub fn read_16(raw: &[u8]) -> (r: u64)
    requires
        raw@.len() >= 2,
    ensures
        r == be16(raw@[0], raw@[1]),
        r <= 0xffff,
{
    let b0: u64 = raw[0] as u64;
    let b1: u64 = raw[1] as u64;
    proof {
        assert((b0 << 8) | b1 <= 0xffff) by (bit_vector)
            requires
                b0 <= 0xff && b1 <= 0xff,
        ;
    }
    (b0 << 8) | b1
}

/// The value of the first four bytes of `raw`, read big-endian.
pub fn read_32(raw: &[u8]) -> (r: u64)
    requires
        raw@.len() >= 4,
    ensures
        r == be32(raw@[0], raw@[1], raw@[2], raw@[3]),
        r <= 0xffff_ffff,
{
    let b0: u64 = raw[0] as u64;
    let b1: u64 = raw[1] as u64;
    let b2: u64 = raw[2] as u64;
    let b3: u64 = raw[3] as u64;
    proof {
        assert((b0 << 24) | (b1 << 16) | (b2 << 8) | b3 <= 0xffff_ffff) by (bit_vector)
            requires
                b0 <= 0xff && b1 <= 0xff && b2 <= 0xff && b3 <= 0xff,
        ;
    }
    (b0 << 24) | (b1 << 16) | (b2 << 8) | b3
}

/// The value of the first eight bytes of `raw`, read big-endian.
pub fn read_64(raw: &[u8]) -> (r: u64)
    requires
        raw@.len() >= 8,
    ensures
        r == be64(raw@[0], raw@[1], raw@[2], raw@[3], raw@[4], raw@[5], raw@[6], raw@[7]),
{
    let b0: u64 = raw[0] as u64;
    let b1: u64 = raw[1] as u64;
    let b2: u64 = raw[2] as u64;
    let b3: u64 = raw[3] as u64;
    let b4: u64 = raw[4] as u64;
    let b5: u64 = raw[5] as u64;
    let b6: u64 = raw[6] as u64;
    let b7: u64 = raw[7] as u64;
    (b0 << 56) | (b1 << 48) | (b2 << 40) | (b3 << 32) | (b4 << 24) | (b5 << 16) | (b6 << 8) | b7
}

/// The signed type id encoded by an extension type byte.
fn to_i8(b: u8) -> (r: i8)
    ensures
        r == ext_type_of_byte(b),
{
    if b < 0x80 {
        b as i8
    } else {
        ((b as i16) - 256) as i8
    }
}

/// Relies on `String::from_utf8`: succeeds exactly on valid UTF-8 and then
/// returns the string those bytes spell.
#[verifier::external_body]
fn string_from_utf8(bytes: Vec<u8>) -> (r: Option<String>)
    ensures
        r is Some <==> valid_utf8(bytes@),
        r matches Some(s) ==> s@ == decode_utf8(bytes@),
{
    String::from_utf8(bytes).ok()
}

/// Widens a binary32 bit pattern to the binary64 bit pattern with the same
/// value (NaNs quieted, payload preserved).
fn f32_to_f64_bits(b: u32) -> (r: u64)
    ensures
        r == spec_f32_to_f64_bits(b),
{
    let sign: u64 = ((b >> 31) & 1) as u64;
    let exp: u64 = ((b >> 23) & 0xff) as u64;
    let frac: u64 = (b & 0x7f_ffff) as u64;
    proof {
        assert((b & 0x7f_ffff) < 0x80_0000 && ((b >> 23) & 0xff) <= 0xff && ((b >> 31) & 1)
            <= 1) by (bit_vector);
    }
    if exp == 0xff {
        if frac == 0 {
            (sign << 63) | 0x7ff0_0000_0000_0000
        } else {
            (sign << 63) | 0x7ff8_0000_0000_0000 | (frac << 29)
        }
    } else if exp == 0 {
        if frac == 0 {
            sign << 63
        } else {
            let mut f: u64 = frac;
            let mut e: i64 = -126;
            proof {
                vstd::arithmetic::power2::lemma2_to64();
            }
            while f < 0x80_0000
                invariant
                    1 <= f < 0x100_0000,
                    -149 <= e <= -126,
                    f >= vstd::arithmetic::power2::pow2((-126 - e) as nat),
                    spec_norm(frac, -126) == spec_norm(f, e as int),
                decreases 0x100_0000 - f,
            {
                proof {
                    vstd::arithmetic::power2::lemma2_to64();
                    if e < -148 {
                        vstd::arithmetic::power2::lemma_pow2_strictly_increases(
                            23,
                            (-126 - e) as nat,
                        );
                    }
                    vstd::arithmetic::power2::lemma_pow2_adds((-126 - e) as nat, 1);
                }
                f = f * 2;
                e = e - 1;
            }
            (sign << 63) | (((e + 1023) as u64) << 52) | ((f - 0x80_0000) << 29)
        }
    } else {
        (sign << 63) | (((exp + 896) as u64) << 52) | (frac << 29)
    }
}

/// The result of parsing a string whose `n` payload bytes start at `start`.
fn parse_str_payload(raw: &[u8], start: usize, n: usize) -> (r: Result<
    (MsgPack, usize),
    ParseError,
>)
    requires
        start + n <= raw@.len(),
    ensures
        r matches Ok(p) ==> spec_parse_str_payload(raw@, start as int, n as int) == Ok::<
            (SpecMsgPack, int),
            int,
        >((p.0@, p.1 as int)) && p.1 == start + n,
        r matches Err(e) ==> spec_parse_str_payload(raw@, start as int, n as int) == Err::<
            (SpecMsgPack, int),
            int,
        >(e.byte as int) && e.byte == start,
{
    proof {
        broadcast use vstd::slice::group_slice_axioms;

        assert(raw@.len() == vstd::slice::spec_slice_len(raw));
    }
    let payload = slice_to_vec(slice_subrange(raw, start, start + n));
    match string_from_utf8(payload) {
        Some(s) => Ok((MsgPack::String(s), start + n)),
        None => Err(ParseError { byte: start }),
    }
}

/// Parses binary data as MsgPack, returning both the result and the length
/// of the data.  Useful when other data follows in the slice.
pub fn parse(raw: &[u8]) -> (r: Result<(MsgPack, usize), ParseError>)
    ensures
        r matches Ok(p) ==> spec_parse(raw@) == Ok::<(SpecMsgPack, int), int>((
            p.0@,
            p.1 as int,
        )) && 1 <= p.1 <= raw@.len(),
        r matches Err(e) ==> spec_parse(raw@) == Err::<(SpecMsgPack, int), int>(e.byte as int)
            && e.byte <= raw@.len(),
    decreases raw@.len(), 0int,
{
    if raw.len() < 1 {
        return Err(ParseError { byte: 0 });
    }
    let first_byte = raw[0];

    if first_byte <= 0x7f {
        // positive fixint
        return Ok((MsgPack::Int(first_byte as i64), 1));
    }
    if first_byte >= 0xe0 {
        // negative fixint
        return Ok((MsgPack::Int((first_byte as i64) - 256), 1));
    }

    if first_byte >= 0x80 && first_byte <= 0x8f {
        // fixmap
        let len = (first_byte - 0x80) as usize;
        match parse_map(slice_subrange(raw, 1, raw.len()), len) {
            Ok((value, size)) => {
                proof {
                    lemma_mapping_view(value);
                }
                return Ok((MsgPack::Mapping(value), 1 + size));
            },
            Err(e) => {
                return Err(ParseError { byte: 1 + e.byte });
            },
        }
    }

    if first_byte >= 0x90 && first_byte <= 0x9f {
        // fixarray
        let len = (first_byte - 0x90) as usize;
        match parse_array(slice_subrange(raw, 1, raw.len()), len) {
            Ok((value, size)) => {
                proof {
                    lemma_array_view(value);
                }
                return Ok((MsgPack::Array(value), 1 + size));
            },
            Err(e) => {
                return Err(ParseError { byte: 1 + e.byte });
            },
        }
    }

    if first_byte >= 0xa0 && first_byte <= 0xbf {
        // fixstr
        let len = (first_byte - 0xa0) as usize;
        if raw.len() < 1 + len {
            return Err(ParseError { byte: 1 });
        }
        return parse_str_payload(raw, 1, len);
    }

    if first_byte == 0xc0 {
        return Ok((MsgPack::Nil, 1));
    }
    if first_byte == 0xc1 {
        // reserved, never used
        return Err(ParseError { byte: 0 });
    }
    if first_byte == 0xc2 {
        return Ok((MsgPack::Boolean(false), 1));
    }
    if first_byte == 0xc3 {
        return Ok((MsgPack::Boolean(true), 1));
    }

    if first_byte == 0xc4 {
        // bin 8
        if raw.len() < 2 {
            return Err(ParseError { byte: 1 });
        }
        let len = read_8(slice_subrange(raw, 1, raw.len())) as usize;
        if raw.len() - 2 < len {
            return Err(ParseError { byte: 2 });
        }
        let value = slice_to_vec(slice_subrange(raw, 2, 2 + len));
        return Ok((MsgPack::Binary(value), 2 + len));
    }

    if first_byte == 0xc5 {
        // bin 16
        if raw.len() < 3 {
            return Err(ParseError { byte: 1 });
        }
        let len = read_16(slice_subrange(raw, 1, raw.len())) as usize;
        if raw.len() - 3 < len {
            return Err(ParseError { byte: 3 });
        }
        let value = slice_to_vec(slice_subrange(raw, 3, 3 + len));
        return Ok((MsgPack::Binary(value), 3 + len));
    }

    if first_byte == 0xc6 {
        // bin 32
        if raw.len() < 5 {
            return Err(ParseError { byte: 1 });
        }
        let len = read_32(slice_subrange(raw, 1, raw.len())) as usize;
        if raw.len() - 5 < len {
            return Err(ParseError { byte: 5 });
        }
        let value = slice_to_vec(slice_subrange(raw, 5, 5 + len));
        return Ok((MsgPack::Binary(value), 5 + len));
    }

    if first_byte == 0xc7 {
        // ext 8
        if raw.len() < 3 {
            return Err(ParseError { byte: 1 });
        }
        let len = read_8(slice_subrange(raw, 1, raw.len())) as usize;
        let type_id = to_i8(raw[2]);
        if raw.len() - 3 < len {
            return Err(ParseError { byte: 3 });
        }
        let value = slice_to_vec(slice_subrange(raw, 3, 3 + len));
        return Ok((MsgPack::Extension(Extension { type_id, value }), 3 + len));
    }

    if first_byte == 0xc8 {
        // ext 16
        if raw.len() < 4 {
            return Err(ParseError { byte: 1 });
        }
        let len = read_16(slice_subrange(raw, 1, raw.len())) as usize;
        let type_id = to_i8(raw[3]);
        if raw.len() - 4 < len {
            return Err(ParseError { byte: 4 });
        }
        let value = slice_to_vec(slice_subrange(raw, 4, 4 + len));
        return Ok((MsgPack::Extension(Extension { type_id, value }), 4 + len));
    }

    if first_byte == 0xc9 {
        // ext 32
        if raw.len() < 6 {
            return Err(ParseError { byte: 1 });
        }
        let len = read_32(slice_subrange(raw, 1, raw.len())) as usize;
        let type_id = to_i8(raw[5]);
        if raw.len() - 6 < len {
            return Err(ParseError { byte: 6 });
        }
        let value = slice_to_vec(slice_subrange(raw, 6, 6 + len));
        return Ok((MsgPack::Extension(Extension { type_id, value }), 6 + len));
    }

    if first_byte == 0xca {
        // float 32, promoted to binary64 by value
        if raw.len() < 5 {
            return Err(ParseError { byte: 1 });
        }
        let raw_value = read_32(slice_subrange(raw, 1, raw.len()));
        let bits = f32_to_f64_bits(raw_value as u32);
        return Ok((MsgPack::Float(bits), 5));
    }

    if first_byte == 0xcb {
        // float 64
        if raw.len() < 9 {
            return Err(ParseError { byte: 1 });
        }
        let raw_value = read_64(slice_subrange(raw, 1, raw.len()));
        return Ok((MsgPack::Float(raw_value), 9));
    }

    if first_byte == 0xcc {
        // uint 8
        if raw.len() < 2 {
            return Err(ParseError { byte: 1 });
        }
        let value = read_8(slice_subrange(raw, 1, raw.len()));
        return Ok((MsgPack::Uint(value), 2));
    }

    if first_byte == 0xcd {
        // uint 16
        if raw.len() < 3 {
            return Err(ParseError { byte: 1 });
        }
        let value = read_16(slice_subrange(raw, 1, raw.len()));
        return Ok((MsgPack::Uint(value), 3));
    }

    if first_byte == 0xce {
        // uint 32
        if raw.len() < 5 {
            return Err(ParseError { byte: 1 });
        }
        let value = read_32(slice_subrange(raw, 1, raw.len()));
        return Ok((MsgPack::Uint(value), 5));
    }

    if first_byte == 0xcf {
        // uint 64
        if raw.len() < 9 {
            return Err(ParseError { byte: 1 });
        }
        let value = read_64(slice_subrange(raw, 1, raw.len()));
        return Ok((MsgPack::Uint(value), 9));
    }

    if first_byte == 0xd0 {
        // int 8
        if raw.len() < 2 {
            return Err(ParseError { byte: 1 });
        }
        let raw_value = read_8(slice_subrange(raw, 1, raw.len()));
        let value: i64 = if raw_value < 0x80 {
            raw_value as i64
        } else {
            (raw_value as i64) - 0x100
        };
        return Ok((MsgPack::Int(value), 2));
    }

    if first_byte == 0xd1 {
        // int 16
        if raw.len() < 3 {
            return Err(ParseError { byte: 1 });
        }
        let raw_value = read_16(slice_subrange(raw, 1, raw.len()));
        let value: i64 = if raw_value < 0x8000 {
            raw_value as i64
        } else {
            (raw_value as i64) - 0x1_0000
        };
        return Ok((MsgPack::Int(value), 3));
    }

    if first_byte == 0xd2 {
        // int 32
        if raw.len() < 5 {
            return Err(ParseError { byte: 1 });
        }
        let raw_value = read_32(slice_subrange(raw, 1, raw.len()));
        let value: i64 = if raw_value < 0x8000_0000 {
            raw_value as i64
        } else {
            (raw_value as i64) - 0x1_0000_0000
        };
        return Ok((MsgPack::Int(value), 5));
    }

    if first_byte == 0xd3 {
        // int 64
        if raw.len() < 9 {
            return Err(ParseError { byte: 1 });
        }
        let raw_value = read_64(slice_subrange(raw, 1, raw.len()));
        let value: i64 = if raw_value < 0x8000_0000_0000_0000 {
            raw_value as i64
        } else {
            ((raw_value - 0x8000_0000_0000_0000) as i64) + i64::MIN
        };
        return Ok((MsgPack::Int(value), 9));
    }

    if first_byte >= 0xd4 && first_byte <= 0xd8 {
        // fixext 1/2/4/8/16
        let width: usize = if first_byte == 0xd4 {
            1
        } else if first_byte == 0xd5 {
            2
        } else if first_byte == 0xd6 {
            4
        } else if first_byte == 0xd7 {
            8
        } else {
            16
        };
        if raw.len() < 2 + width {
            return Err(ParseError { byte: 1 });
        }
        let type_id = to_i8(raw[1]);
        let value = slice_to_vec(slice_subrange(raw, 2, 2 + width));
        return Ok((MsgPack::Extension(Extension { type_id, value }), 2 + width));
    }

    if first_byte == 0xd9 {
        // str 8
        if raw.len() < 2 {
            return Err(ParseError { byte: 1 });
        }
        let len = read_8(slice_subrange(raw, 1, raw.len())) as usize;
        if raw.len() - 2 < len {
            return Err(ParseError { byte: 2 });
        }
        return parse_str_payload(raw, 2, len);
    }

    if first_byte == 0xda {
        // str 16
        if raw.len() < 3 {
            return Err(ParseError { byte: 1 });
        }
        let len = read_16(slice_subrange(raw, 1, raw.len())) as usize;
        if raw.len() - 3 < len {
            return Err(ParseError { byte: 3 });
        }
        return parse_str_payload(raw, 3, len);
    }

    if first_byte == 0xdb {
        // str 32
        if raw.len() < 5 {
            return Err(ParseError { byte: 1 });
        }
        let len = read_32(slice_subrange(raw, 1, raw.len())) as usize;
        if raw.len() - 5 < len {
            return Err(ParseError { byte: 5 });
        }
        return parse_str_payload(raw, 5, len);
    }

    if first_byte == 0xdc {
        // array 16
        if raw.len() < 3 {
            return Err(ParseError { byte: 1 });
        }
        let len = read_16(slice_subrange(raw, 1, raw.len())) as usize;
        match parse_array(slice_subrange(raw, 3, raw.len()), len) {
            Ok((value, size)) => {
                proof {
                    lemma_array_view(value);
                }
                return Ok((MsgPack::Array(value), 3 + size));
            },
            Err(e) => {
                return Err(ParseError { byte: 3 + e.byte });
            },
        }
    }

    if first_byte == 0xdd {
        // array 32
        if raw.len() < 5 {
            return Err(ParseError { byte: 1 });
        }
        let len = read_32(slice_subrange(raw, 1, raw.len())) as usize;
        match parse_array(slice_subrange(raw, 5, raw.len()), len) {
            Ok((value, size)) => {
                proof {
                    lemma_array_view(value);
                }
                return Ok((MsgPack::Array(value), 5 + size));
            },
            Err(e) => {
                return Err(ParseError { byte: 5 + e.byte });
            },
        }
    }

    if first_byte == 0xde {
        // map 16
        if raw.len() < 3 {
            return Err(ParseError { byte: 1 });
        }
        let len = read_16(slice_subrange(raw, 1, raw.len())) as usize;
        match parse_map(slice_subrange(raw, 3, raw.len()), len) {
            Ok((value, size)) => {
                proof {
                    lemma_mapping_view(value);
                }
                return Ok((MsgPack::Mapping(value), 3 + size));
            },
            Err(e) => {
                return Err(ParseError { byte: 3 + e.byte });
            },
        }
    }

    // map 32 (first_byte == 0xdf)
    if raw.len() < 5 {
        return Err(ParseError { byte: 1 });
    }
    let len = read_32(slice_subrange(raw, 1, raw.len())) as usize;
    match parse_map(slice_subrange(raw, 5, raw.len()), len) {
        Ok((value, size)) => {
            proof {
                lemma_mapping_view(value);
            }
            Ok((MsgPack::Mapping(value), 5 + size))
        },
        Err(e) => Err(ParseError { byte: 5 + e.byte }),
    }
}

/// Parses `length` consecutive values from the front of `raw`.
fn parse_array(raw: &[u8], length: usize) -> (r: Result<(Vec<MsgPack>, usize), ParseError>)
    ensures
        r matches Ok(p) ==> (spec_parse_values(raw@, length as nat) matches Ok(q) && q.0
            == deep_seq(p.0@) && q.1 == p.1 as int && p.1 <= raw@.len()),
        r matches Err(e) ==> (spec_parse_values(raw@, length as nat) matches Err(o) && o
            == e.byte as int && e.byte <= raw@.len()),
    decreases raw@.len(), 1int,
{
    let mut cursor: usize = 0;
    let mut result: Vec<MsgPack> = Vec::new();
    let mut i: usize = 0;
    proof {
        assert(raw@.skip(0) =~= raw@);
        assert(deep_seq(result@) =~= Seq::<SpecMsgPack>::empty());
    }
    while i < length
        invariant
            i <= length,
            cursor <= raw@.len(),
            result@.len() == i,
            (match spec_parse_values(raw@.skip(cursor as int), (length - i) as nat) {
                Ok(q) => spec_parse_values(raw@, length as nat) == Ok::<
                    (Seq<SpecMsgPack>, int),
                    int,
                >((deep_seq(result@) + q.0, cursor + q.1)),
                Err(o) => spec_parse_values(raw@, length as nat) == Err::<
                    (Seq<SpecMsgPack>, int),
                    int,
                >(cursor + o),
            }),
        decreases length - i,
    {
        let ghost prev = result@;
        let ghost prev_cursor = cursor as int;
        let sub = slice_subrange(raw, cursor, raw.len());
        match parse(sub) {
            Err(e) => {
                return Err(ParseError { byte: cursor + e.byte });
            },
            Ok((value, size)) => {
                proof {
                    assert(raw@.skip(prev_cursor).skip(size as int) =~= raw@.skip(
                        prev_cursor + size as int,
                    ));
                }
                result.push(value);
                cursor = cursor + size;
                i = i + 1;
                proof {
                    assert(deep_seq(result@) =~= deep_seq(prev) + seq![value@]);
                    match spec_parse_values(raw@.skip(cursor as int), (length - i) as nat) {
                        Ok(q) => {
                            assert(deep_seq(prev) + (seq![value@] + q.0) =~= deep_seq(result@)
                                + q.0);
                        },
                        Err(o) => {},
                    }
                }
            },
        }
    }
    proof {
        assert(deep_seq(result@) + Seq::<SpecMsgPack>::empty() =~= deep_seq(result@));
    }
    Ok((result, cursor))
}

/// Parses `length` key-value pairs from the front of `raw`, pairing the
/// `2 * length` parsed values positionally.
fn parse_map(raw: &[u8], length: usize) -> (r: Result<(Vec<MapElement>, usize), ParseError>)
    ensures
        r matches Ok(p) ==> (spec_parse_values(raw@, 2 * (length as nat)) matches Ok(q)
            && spec_pairs(q.0) == deep_entries(p.0@) && q.1 == p.1 as int && p.1 <= raw@.len()),
        r matches Err(e) ==> (spec_parse_values(raw@, 2 * (length as nat)) matches Err(o) && o
            == e.byte as int && e.byte <= raw@.len()),
    decreases raw@.len(), 1int,
{
    let mut cursor: usize = 0;
    let mut result: Vec<MapElement> = Vec::new();
    let mut i: usize = 0;
    let ghost mut done: Seq<SpecMsgPack> = Seq::empty();
    proof {
        assert(raw@.skip(0) =~= raw@);
        assert(deep_entries(result@) =~= spec_pairs(done));
    }
    while i < length
        invariant
            i <= length,
            cursor <= raw@.len(),
            result@.len() == i,
            done.len() == 2 * i,
            deep_entries(result@) == spec_pairs(done),
            (match spec_parse_values(raw@.skip(cursor as int), 2 * ((length - i) as nat)) {
                Ok(q) => spec_parse_values(raw@, 2 * (length as nat)) == Ok::<
                    (Seq<SpecMsgPack>, int),
                    int,
                >((done + q.0, cursor + q.1)),
                Err(o) => spec_parse_values(raw@, 2 * (length as nat)) == Err::<
                    (Seq<SpecMsgPack>, int),
                    int,
                >(cursor + o),
            }),
        decreases length - i,
    {
        let ghost prev_done = done;
        let ghost prev_entries = result@;
        let ghost prev_cursor = cursor as int;
        let ghost m: nat = (length - i) as nat;
        let ghost s0 = raw@.skip(prev_cursor);
        let sub = slice_subrange(raw, cursor, raw.len());
        let (key, key_size) = match parse(sub) {
            Err(e) => {
                return Err(ParseError { byte: cursor + e.byte });
            },
            Ok(p) => p,
        };
        proof {
            assert(s0.skip(key_size as int) =~= raw@.skip(prev_cursor + key_size as int));
        }
        cursor = cursor + key_size;
        let ghost s1 = raw@.skip(cursor as int);
        let sub2 = slice_subrange(raw, cursor, raw.len());
        let (value, value_size) = match parse(sub2) {
            Err(e) => {
                proof {
                    assert(spec_parse_values(s1, (2 * m - 1) as nat) == Err::<
                        (Seq<SpecMsgPack>, int),
                        int,
                    >(e.byte as int));
                    assert(spec_parse_values(s0, 2 * m) == Err::<(Seq<SpecMsgPack>, int), int>(
                        key_size + e.byte as int,
                    ));
                }
                return Err(ParseError { byte: cursor + e.byte });
            },
            Ok(p) => p,
        };
        proof {
            assert(s1.skip(value_size as int) =~= raw@.skip(
                prev_cursor + key_size + value_size as int,
            ));
        }
        cursor = cursor + value_size;
        let ghost s2 = raw@.skip(cursor as int);
        proof {
            done = done + seq![key@, value@];
            lemma_pairs_snoc(prev_done, key@, value@);
            assert(((2 * m - 1) as nat - 1) as nat == 2 * ((m - 1) as nat));
            match spec_parse_values(s2, 2 * ((m - 1) as nat)) {
                Ok(q) => {
                    assert(spec_parse_values(s1, (2 * m - 1) as nat) == Ok::<
                        (Seq<SpecMsgPack>, int),
                        int,
                    >((seq![value@] + q.0, value_size + q.1)));
                    assert(spec_parse_values(s0, 2 * m) == Ok::<(Seq<SpecMsgPack>, int), int>((
                        seq![key@] + (seq![value@] + q.0),
                        key_size + (value_size + q.1),
                    )));
                    assert(prev_done + (seq![key@] + (seq![value@] + q.0)) =~= done + q.0);
                },
                Err(o) => {
                    assert(spec_parse_values(s1, (2 * m - 1) as nat) == Err::<
                        (Seq<SpecMsgPack>, int),
                        int,
                    >(value_size + o));
                    assert(spec_parse_values(s0, 2 * m) == Err::<(Seq<SpecMsgPack>, int), int>(
                        key_size + value_size + o,
                    ));
                },
            }
        }
        result.push(MapElement { key, value });
        i = i + 1;
        proof {
            assert(deep_entries(result@) =~= deep_entries(prev_entries).push((key@, value@)));
        }
    }
    proof {
        assert(done + Seq::<SpecMsgPack>::empty() =~= done);
    }
    Ok((result, cursor))
}

} // verus!
