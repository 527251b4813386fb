//! The MessagePack wire format as a mathematical model.
//!
//! `SpecMsgPack` is the abstract counterpart of [`crate::MsgPack`]: every
//! payload is a sequence, text is a sequence of characters, and a float is
//! carried as its IEEE-754 binary64 bit pattern.  [`spec_encode`] maps a
//! value to its shortest byte encoding; [`spec_parse`] maps a byte sequence
//! to the decoded value and its length, or to the offset of the first byte
//! that made decoding impossible.  The contracts of the executable encoder
//! and decoder are stated over these functions.

use vstd::prelude::*;
use vstd::utf8::decode_utf8;
use vstd::utf8::encode_utf8;
use vstd::utf8::valid_utf8;

verus! {

/// Mathematical model of a MessagePack value.
pub enum SpecMsgPack {
    Nil,
    Int(i64),
    Uint(u64),
    /// IEEE-754 binary64 bit pattern.
    Float(u64),
    Boolean(bool),
    String(Seq<char>),
    Binary(Seq<u8>),
    Array(Seq<SpecMsgPack>),
    /// Key-value pairs in order; keys need not be unique.
    Mapping(Seq<(SpecMsgPack, SpecMsgPack)>),
    /// Extension type id and raw payload.
    Extension(i8, Seq<u8>),
}

// ---------------------------------------------------------------------------
// Big-endian byte composition and decomposition
// ---------------------------------------------------------------------------

/// The value of two bytes read big-endian.
pub open spec fn be16(b0: u8, b1: u8) -> u64 {
    ((b0 as u64) << 8) | (b1 as u64)
}

/// The value of four bytes read big-endian.
pub open spec fn be32(b0: u8, b1: u8, b2: u8, b3: u8) -> u64 {
    ((b0 as u64) << 24) | ((b1 as u64) << 16) | ((b2 as u64) << 8) | (b3 as u64)
}

/// The value of eight bytes read big-endian.
pub open spec fn be64(b0: u8, b1: u8, b2: u8, b3: u8, b4: u8, b5: u8, b6: u8, b7: u8) -> u64 {
    ((b0 as u64) << 56) | ((b1 as u64) << 48) | ((b2 as u64) << 40) | ((b3 as u64) << 32) | ((
    b4 as u64) << 24) | ((b5 as u64) << 16) | ((b6 as u64) << 8) | (b7 as u64)
}

/// The low 16 bits of `x` as two big-endian bytes.
pub open spec fn be_bytes2(x: u64) -> Seq<u8> {
    seq![((x >> 8) & 0xff) as u8, (x & 0xff) as u8]
}

/// The low 32 bits of `x` as four big-endian bytes.
pub open spec fn be_bytes4(x: u64) -> Seq<u8> {
    seq![
        ((x >> 24) & 0xff) as u8,
        ((x >> 16) & 0xff) as u8,
        ((x >> 8) & 0xff) as u8,
        (x & 0xff) as u8,
    ]
}

/// All 64 bits of `x` as eight big-endian bytes.
pub open spec fn be_bytes8(x: u64) -> Seq<u8> {
    seq![
        ((x >> 56) & 0xff) as u8,
        ((x >> 48) & 0xff) as u8,
        ((x >> 40) & 0xff) as u8,
        ((x >> 32) & 0xff) as u8,
        ((x >> 24) & 0xff) as u8,
        ((x >> 16) & 0xff) as u8,
        ((x >> 8) & 0xff) as u8,
        (x & 0xff) as u8,
    ]
}

// ---------------------------------------------------------------------------
// Two's complement
// ---------------------------------------------------------------------------

/// The two's-complement representation of `v` modulo `m`, for `-m/2 <= v < m/2`.
pub open spec fn twos_complement(v: i64, m: int) -> u64 {
    if v >= 0 {
        v as u64
    } else {
        (v + m) as u64
    }
}

/// The signed value of `u` read as a two's-complement number modulo `m`,
/// for `u < m`.
pub open spec fn sign_extend(u: u64, m: int) -> i64 {
    if (u as int) < m / 2 {
        u as i64
    } else {
        (u - m) as i64
    }
}

/// The two's-complement byte for an extension type id.
pub open spec fn ext_type_byte(t: i8) -> u8 {
    if t >= 0 {
        t as u8
    } else {
        (t + 256) as u8
    }
}

/// The type id encoded by an extension type byte.
pub open spec fn ext_type_of_byte(b: u8) -> i8 {
    if b < 0x80 {
        b as i8
    } else {
        (b - 256) as i8
    }
}

// ---------------------------------------------------------------------------
// Minimal-width headers
// ---------------------------------------------------------------------------

/// The shortest header announcing a string of `len` bytes.  A length beyond
/// the 32-bit field is truncated, as the wire format cannot carry it.
pub open spec fn str_header(len: nat) -> Seq<u8> {
    if len < 32 {
        seq![(0xa0 + len) as u8]
    } else if len <= 0xff {
        seq![0xd9, len as u8]
    } else if len <= 0xffff {
        seq![0xda] + be_bytes2(len as u64)
    } else {
        seq![0xdb] + be_bytes4((len % 0x1_0000_0000) as u64)
    }
}

/// The shortest header announcing a binary payload of `len` bytes.
pub open spec fn bin_header(len: nat) -> Seq<u8> {
    if len <= 0xff {
        seq![0xc4, len as u8]
    } else if len <= 0xffff {
        seq![0xc5] + be_bytes2(len as u64)
    } else {
        seq![0xc6] + be_bytes4((len % 0x1_0000_0000) as u64)
    }
}

/// The shortest header announcing an array of `len` elements.
pub open spec fn array_header(len: nat) -> Seq<u8> {
    if len < 16 {
        seq![(0x90 + len) as u8]
    } else if len <= 0xffff {
        seq![0xdc] + be_bytes2(len as u64)
    } else {
        seq![0xdd] + be_bytes4((len % 0x1_0000_0000) as u64)
    }
}

/// The shortest header announcing a map of `len` entries.
pub open spec fn map_header(len: nat) -> Seq<u8> {
    if len < 16 {
        seq![(0x80 + len) as u8]
    } else if len <= 0xffff {
        seq![0xde] + be_bytes2(len as u64)
    } else {
        seq![0xdf] + be_bytes4((len % 0x1_0000_0000) as u64)
    }
}

/// The shortest header announcing an extension payload of `len` bytes:
/// one of the five fixed-size forms when the length matches exactly,
/// else the smallest explicit length field.
pub open spec fn ext_header(len: nat) -> Seq<u8> {
    if len == 1 {
        seq![0xd4]
    } else if len == 2 {
        seq![0xd5]
    } else if len == 4 {
        seq![0xd6]
    } else if len == 8 {
        seq![0xd7]
    } else if len == 16 {
        seq![0xd8]
    } else if len <= 0xff {
        seq![0xc7, len as u8]
    } else if len <= 0xffff {
        seq![0xc8] + be_bytes2(len as u64)
    } else {
        seq![0xc9] + be_bytes4((len % 0x1_0000_0000) as u64)
    }
}

// ---------------------------------------------------------------------------
// Encoding
// ---------------------------------------------------------------------------

/// The shortest encoding of a signed integer: a single fixint byte when the
/// value allows it, else the narrowest two's-complement form.
pub open spec fn spec_encode_int(v: i64) -> Seq<u8> {
    if 0 <= v <= 127 {
        seq![v as u8]
    } else if -32 <= v < 0 {
        seq![(v + 256) as u8]
    } else if -128 <= v < -32 {
        seq![0xd0, (twos_complement(v, 0x100) & 0xff) as u8]
    } else if -0x8000 <= v < 0x8000 {
        seq![0xd1] + be_bytes2(twos_complement(v, 0x1_0000))
    } else if -0x8000_0000 <= v < 0x8000_0000 {
        seq![0xd2] + be_bytes4(twos_complement(v, 0x1_0000_0000))
    } else {
        seq![0xd3] + be_bytes8(twos_complement(v, 0x1_0000_0000_0000_0000))
    }
}

/// The narrowest unsigned encoding of `v`.  A fixint is never used, so that
/// a round trip keeps the unsigned type distinct from the signed one.
pub open spec fn spec_encode_uint(v: u64) -> Seq<u8> {
    if v <= 0xff {
        seq![0xcc, (v & 0xff) as u8]
    } else if v <= 0xffff {
        seq![0xcd] + be_bytes2(v)
    } else if v <= 0xffff_ffff {
        seq![0xce] + be_bytes4(v)
    } else {
        seq![0xcf] + be_bytes8(v)
    }
}

/// The encoding of one MessagePack value.
pub open spec fn spec_encode(v: SpecMsgPack) -> Seq<u8>
    decreases v, 0int,
{
    match v {
        SpecMsgPack::Nil => seq![0xc0],
        SpecMsgPack::Boolean(b) => if b {
            seq![0xc3]
        } else {
            seq![0xc2]
        },
        SpecMsgPack::Int(i) => spec_encode_int(i),
        SpecMsgPack::Uint(u) => spec_encode_uint(u),
        SpecMsgPack::Float(bits) => seq![0xcb] + be_bytes8(bits),
        SpecMsgPack::String(chars) => {
            let payload = encode_utf8(chars);
            str_header(payload.len()) + payload
        },
        SpecMsgPack::Binary(payload) => bin_header(payload.len()) + payload,
        SpecMsgPack::Array(items) => array_header(items.len()) + spec_encode_seq_from(items, 0),
        SpecMsgPack::Mapping(entries) => map_header(entries.len()) + spec_encode_entries_from(
            entries,
            0,
        ),
        SpecMsgPack::Extension(t, payload) => ext_header(payload.len()) + seq![ext_type_byte(t)]
            + payload,
    }
}

/// The concatenated encodings of `items[i..]`.
pub open spec fn spec_encode_seq_from(items: Seq<SpecMsgPack>, i: nat) -> Seq<u8>
    decreases items, 1int, items.len() - i,
{
    if i >= items.len() {
        Seq::empty()
    } else {
        spec_encode(items[i as int]) + spec_encode_seq_from(items, i + 1)
    }
}

/// The concatenated key and value encodings of `entries[i..]`.
pub open spec fn spec_encode_entries_from(
    entries: Seq<(SpecMsgPack, SpecMsgPack)>,
    i: nat,
) -> Seq<u8>
    decreases entries, 1int, entries.len() - i,
{
    if i >= entries.len() {
        Seq::empty()
    } else {
        spec_encode(entries[i as int].0) + spec_encode(entries[i as int].1)
            + spec_encode_entries_from(entries, i + 1)
    }
}

// ---------------------------------------------------------------------------
// Widening a binary32 bit pattern to binary64
// ---------------------------------------------------------------------------

/// Doubles `frac` until it reaches the binary32 implicit-bit position,
/// lowering the exponent accordingly; used to normalize subnormals.
pub open spec fn spec_norm(frac: u64, e: int) -> (u64, int)
    decreases (if frac >= 0x80_0000 { 0int } else { 0x80_0000 - frac }),
{
    if frac == 0 || frac >= 0x80_0000 {
        (frac, e)
    } else {
        spec_norm((frac * 2) as u64, e - 1)
    }
}

/// The IEEE-754 binary64 bit pattern with the same value as the binary32
/// bit pattern `b`: sign and significand are preserved and the exponent is
/// re-biased; subnormals are normalized (every binary32 subnormal is normal
/// in binary64); infinities keep their sign; NaN payloads are preserved and
/// quieted.
pub open spec fn spec_f32_to_f64_bits(b: u32) -> u64 {
    let sign = ((b >> 31) & 1) as u64;
    let exp = ((b >> 23) & 0xff) as u64;
    let frac = (b & 0x7f_ffff) as u64;
    if exp == 0xff {
        if frac == 0 {
            (sign << 63) | 0x7ff0_0000_0000_0000
        } else {
            (sign << 63) | 0x7ff8_0000_0000_0000 | (frac << 29)
        }
    } else if exp == 0 {
        if frac == 0 {
            sign << 63
        } else {
            let nf = spec_norm(frac, -126).0;
            let ne = spec_norm(frac, -126).1;
            (sign << 63) | (((ne + 1023) as u64) << 52) | (((nf - 0x80_0000) as u64) << 29)
        }
    } else {
        (sign << 63) | (((exp + 896) as u64) << 52) | (frac << 29)
    }
}

// ---------------------------------------------------------------------------
// Parsing
// ---------------------------------------------------------------------------

/// Consecutive values paired positionally: entry `i` is
/// `(vs[2 * i], vs[2 * i + 1])`.
pub open spec fn spec_pairs(vs: Seq<SpecMsgPack>) -> Seq<(SpecMsgPack, SpecMsgPack)> {
    Seq::new(vs.len() / 2, |i: int| (vs[2 * i], vs[2 * i + 1]))
}

/// Parses exactly one value from the front of `s`, returning the value and
/// the number of bytes it occupies, or the offset of the first byte that
/// made decoding impossible.
pub open spec fn spec_parse(s: Seq<u8>) -> Result<(SpecMsgPack, int), int>
    decreases s.len(), 0int, 0nat,
{
    if s.len() == 0 {
        Err(0)
    } else {
        let tag = s[0];
        if tag <= 0x7f {
            // positive fixint
            Ok((SpecMsgPack::Int(tag as i64), 1))
        } else if tag >= 0xe0 {
            // negative fixint
            Ok((SpecMsgPack::Int((tag - 256) as i64), 1))
        } else if tag <= 0x8f {
            // fixmap
            let n = (tag - 0x80) as nat;
            match spec_parse_values(s.skip(1), 2 * n) {
                Ok((vs, c)) => Ok((SpecMsgPack::Mapping(spec_pairs(vs)), 1 + c)),
                Err(o) => Err(1 + o),
            }
        } else if tag <= 0x9f {
            // fixarray
            let n = (tag - 0x90) as nat;
            match spec_parse_values(s.skip(1), n) {
                Ok((vs, c)) => Ok((SpecMsgPack::Array(vs), 1 + c)),
                Err(o) => Err(1 + o),
            }
        } else if tag <= 0xbf {
            // fixstr
            let n = (tag - 0xa0) as int;
            if s.len() < 1 + n {
                Err(1)
            } else {
                spec_parse_str_payload(s, 1, n)
            }
        } else if tag == 0xc0 {
            Ok((SpecMsgPack::Nil, 1))
        } else if tag == 0xc1 {
            // reserved, never used
            Err(0)
        } else if tag == 0xc2 {
            Ok((SpecMsgPack::Boolean(false), 1))
        } else if tag == 0xc3 {
            Ok((SpecMsgPack::Boolean(true), 1))
        } else if tag == 0xc4 {
            // bin 8
            if s.len() < 2 {
                Err(1)
            } else {
                let n = s[1] as int;
                if s.len() < 2 + n {
                    Err(2)
                } else {
                    Ok((SpecMsgPack::Binary(s.subrange(2, 2 + n)), 2 + n))
                }
            }
        } else if tag == 0xc5 {
            // bin 16
            if s.len() < 3 {
                Err(1)
            } else {
                let n = be16(s[1], s[2]) as int;
                if s.len() < 3 + n {
                    Err(3)
                } else {
                    Ok((SpecMsgPack::Binary(s.subrange(3, 3 + n)), 3 + n))
                }
            }
        } else if tag == 0xc6 {
            // bin 32
            if s.len() < 5 {
                Err(1)
            } else {
                let n = be32(s[1], s[2], s[3], s[4]) as int;
                if s.len() < 5 + n {
                    Err(5)
                } else {
                    Ok((SpecMsgPack::Binary(s.subrange(5, 5 + n)), 5 + n))
                }
            }
        } else if tag == 0xc7 {
            // ext 8
            if s.len() < 3 {
                Err(1)
            } else {
                let n = s[1] as int;
                if s.len() < 3 + n {
                    Err(3)
                } else {
                    Ok(
                        (
                            SpecMsgPack::Extension(ext_type_of_byte(s[2]), s.subrange(3, 3 + n)),
                            3 + n,
                        ),
                    )
                }
            }
        } else if tag == 0xc8 {
            // ext 16
            if s.len() < 4 {
                Err(1)
            } else {
                let n = be16(s[1], s[2]) as int;
                if s.len() < 4 + n {
                    Err(4)
                } else {
                    Ok(
                        (
                            SpecMsgPack::Extension(ext_type_of_byte(s[3]), s.subrange(4, 4 + n)),
                            4 + n,
                        ),
                    )
                }
            }
        } else if tag == 0xc9 {
            // ext 32
            if s.len() < 6 {
                Err(1)
            } else {
                let n = be32(s[1], s[2], s[3], s[4]) as int;
                if s.len() < 6 + n {
                    Err(6)
                } else {
                    Ok(
                        (
                            SpecMsgPack::Extension(ext_type_of_byte(s[5]), s.subrange(6, 6 + n)),
                            6 + n,
                        ),
                    )
                }
            }
        } else if tag == 0xca {
            // float 32, promoted to binary64 by value
            if s.len() < 5 {
                Err(1)
            } else {
                Ok(
                    (
                        SpecMsgPack::Float(
                            spec_f32_to_f64_bits(be32(s[1], s[2], s[3], s[4]) as u32),
                        ),
                        5,
                    ),
                )
            }
        } else if tag == 0xcb {
            // float 64
            if s.len() < 9 {
                Err(1)
            } else {
                Ok(
                    (
                        SpecMsgPack::Float(
                            be64(s[1], s[2], s[3], s[4], s[5], s[6], s[7], s[8]),
                        ),
                        9,
                    ),
                )
            }
        } else if tag == 0xcc {
            // uint 8
            if s.len() < 2 {
                Err(1)
            } else {
                Ok((SpecMsgPack::Uint(s[1] as u64), 2))
            }
        } else if tag == 0xcd {
            // uint 16
            if s.len() < 3 {
                Err(1)
            } else {
                Ok((SpecMsgPack::Uint(be16(s[1], s[2])), 3))
            }
        } else if tag == 0xce {
            // uint 32
            if s.len() < 5 {
                Err(1)
            } else {
                Ok((SpecMsgPack::Uint(be32(s[1], s[2], s[3], s[4])), 5))
            }
        } else if tag == 0xcf {
            // uint 64
            if s.len() < 9 {
                Err(1)
            } else {
                Ok((SpecMsgPack::Uint(be64(s[1], s[2], s[3], s[4], s[5], s[6], s[7], s[8])), 9))
            }
        } else if tag == 0xd0 {
            // int 8
            if s.len() < 2 {
                Err(1)
            } else {
                Ok((SpecMsgPack::Int(sign_extend(s[1] as u64, 0x100)), 2))
            }
        } else if tag == 0xd1 {
            // int 16
            if s.len() < 3 {
                Err(1)
            } else {
                Ok((SpecMsgPack::Int(sign_extend(be16(s[1], s[2]), 0x1_0000)), 3))
            }
        } else if tag == 0xd2 {
            // int 32
            if s.len() < 5 {
                Err(1)
            } else {
                Ok(
                    (
                        SpecMsgPack::Int(sign_extend(be32(s[1], s[2], s[3], s[4]), 0x1_0000_0000)),
                        5,
                    ),
                )
            }
        } else if tag == 0xd3 {
            // int 64
            if s.len() < 9 {
                Err(1)
            } else {
                Ok(
                    (
                        SpecMsgPack::Int(
                            sign_extend(
                                be64(s[1], s[2], s[3], s[4], s[5], s[6], s[7], s[8]),
                                0x1_0000_0000_0000_0000,
                            ),
                        ),
                        9,
                    ),
                )
            }
        } else if tag <= 0xd8 {
            // fixext 1/2/4/8/16
            let n: int = if tag == 0xd4 {
                1
            } else if tag == 0xd5 {
                2
            } else if tag == 0xd6 {
                4
            } else if tag == 0xd7 {
                8
            } else {
                16
            };
            if s.len() < 2 + n {
                Err(1)
            } else {
                Ok(
                    (
                        SpecMsgPack::Extension(ext_type_of_byte(s[1]), s.subrange(2, 2 + n)),
                        2 + n,
                    ),
                )
            }
        } else if tag == 0xd9 {
            // str 8
            if s.len() < 2 {
                Err(1)
            } else {
                let n = s[1] as int;
                if s.len() < 2 + n {
                    Err(2)
                } else {
                    spec_parse_str_payload(s, 2, n)
                }
            }
        } else if tag == 0xda {
            // str 16
            if s.len() < 3 {
                Err(1)
            } else {
                let n = be16(s[1], s[2]) as int;
                if s.len() < 3 + n {
                    Err(3)
                } else {
                    spec_parse_str_payload(s, 3, n)
                }
            }
        } else if tag == 0xdb {
            // str 32
            if s.len() < 5 {
                Err(1)
            } else {
                let n = be32(s[1], s[2], s[3], s[4]) as int;
                if s.len() < 5 + n {
                    Err(5)
                } else {
                    spec_parse_str_payload(s, 5, n)
                }
            }
        } else if tag == 0xdc {
            // array 16
            if s.len() < 3 {
                Err(1)
            } else {
                let n = be16(s[1], s[2]) as nat;
                match spec_parse_values(s.skip(3), n) {
                    Ok((vs, c)) => Ok((SpecMsgPack::Array(vs), 3 + c)),
                    Err(o) => Err(3 + o),
                }
            }
        } else if tag == 0xdd {
            // array 32
            if s.len() < 5 {
                Err(1)
            } else {
                let n = be32(s[1], s[2], s[3], s[4]) as nat;
                match spec_parse_values(s.skip(5), n) {
                    Ok((vs, c)) => Ok((SpecMsgPack::Array(vs), 5 + c)),
                    Err(o) => Err(5 + o),
                }
            }
        } else if tag == 0xde {
            // map 16
            if s.len() < 3 {
                Err(1)
            } else {
                let n = be16(s[1], s[2]) as nat;
                match spec_parse_values(s.skip(3), 2 * n) {
                    Ok((vs, c)) => Ok((SpecMsgPack::Mapping(spec_pairs(vs)), 3 + c)),
                    Err(o) => Err(3 + o),
                }
            }
        } else {
            // map 32 (tag == 0xdf)
            if s.len() < 5 {
                Err(1)
            } else {
                let n = be32(s[1], s[2], s[3], s[4]) as nat;
                match spec_parse_values(s.skip(5), 2 * n) {
                    Ok((vs, c)) => Ok((SpecMsgPack::Mapping(spec_pairs(vs)), 5 + c)),
                    Err(o) => Err(5 + o),
                }
            }
        }
    }
}

/// The result of parsing a string whose `n` payload bytes start at `start`
/// in `s`: the decoded text, or the offset of the payload when it is not
/// valid UTF-8.
pub open spec fn spec_parse_str_payload(s: Seq<u8>, start: int, n: int) -> Result<
    (SpecMsgPack, int),
    int,
> {
    let payload = s.subrange(start, start + n);
    if valid_utf8(payload) {
        Ok((SpecMsgPack::String(decode_utf8(payload)), start + n))
    } else {
        Err(start)
    }
}

/// Parses `n` consecutive values from the front of `s`, returning them with
/// the total number of bytes they occupy, or the offset of the failure.
pub open spec fn spec_parse_values(s: Seq<u8>, n: nat) -> Result<(Seq<SpecMsgPack>, int), int>
    decreases s.len(), 1int, n,
{
    if n == 0 {
        Ok((Seq::empty(), 0))
    } else {
        match spec_parse(s) {
            Err(o) => Err(o),
            Ok((v, c)) => {
                // A parsed value always occupies between 1 and s.len() bytes
                // (lemma_spec_parse_bounds); the guard keeps the recursion
                // well-founded.
                if 1 <= c <= s.len() {
                    match spec_parse_values(s.skip(c), (n - 1) as nat) {
                        Err(o) => Err(c + o),
                        Ok((vs, c2)) => Ok((seq![v] + vs, c + c2)),
                    }
                } else {
                    Err(0)
                }
            },
        }
    }
}

// ---------------------------------------------------------------------------
// Well-formedness
// ---------------------------------------------------------------------------

/// A value that the wire format can carry exactly: every payload and every
/// element count fits the widest (32-bit) length field, at every nesting
/// level.  Encoding truncates the length field of anything larger.
pub open spec fn wf(v: SpecMsgPack) -> bool
    decreases v, 0int,
{
    match v {
        SpecMsgPack::Nil => true,
        SpecMsgPack::Int(_) => true,
        SpecMsgPack::Uint(_) => true,
        SpecMsgPack::Float(_) => true,
        SpecMsgPack::Boolean(_) => true,
        SpecMsgPack::String(chars) => encode_utf8(chars).len() <= 0xffff_ffff,
        SpecMsgPack::Binary(payload) => payload.len() <= 0xffff_ffff,
        SpecMsgPack::Array(items) => items.len() <= 0xffff_ffff && wf_seq_from(items, 0),
        SpecMsgPack::Mapping(entries) => entries.len() <= 0xffff_ffff && wf_entries_from(
            entries,
            0,
        ),
        SpecMsgPack::Extension(_, payload) => payload.len() <= 0xffff_ffff,
    }
}

/// Every element of `items[i..]` is well-formed.
pub open spec fn wf_seq_from(items: Seq<SpecMsgPack>, i: nat) -> bool
    decreases items, 1int, items.len() - i,
{
    i >= items.len() || (wf(items[i as int]) && wf_seq_from(items, i + 1))
}

/// Every key and value of `entries[i..]` is well-formed.
pub open spec fn wf_entries_from(entries: Seq<(SpecMsgPack, SpecMsgPack)>, i: nat) -> bool
    decreases entries, 1int, entries.len() - i,
{
    i >= entries.len() || (wf(entries[i as int].0) && wf(entries[i as int].1)
        && wf_entries_from(entries, i + 1))
}

/// A successfully parsed value occupies between 1 and `s.len()` bytes, and
/// a parse error points at an offset inside `s` (one past its end at most).
pub proof fn lemma_spec_parse_bounds(s: Seq<u8>)
    ensures
        spec_parse(s) matches Ok((v, c)) ==> 1 <= c <= s.len(),
        spec_parse(s) matches Err(o) ==> 0 <= o <= s.len(),
    decreases s.len(), 0int, 0nat,
{
    if s.len() > 0 {
        let tag = s[0];
        if 0x80 <= tag <= 0x8f {
            lemma_spec_parse_values_bounds(s.skip(1), 2 * ((tag - 0x80) as nat));
        } else if 0x90 <= tag <= 0x9f {
            lemma_spec_parse_values_bounds(s.skip(1), (tag - 0x90) as nat);
        } else if tag == 0xdc && s.len() >= 3 {
            lemma_spec_parse_values_bounds(s.skip(3), be16(s[1], s[2]) as nat);
        } else if tag == 0xdd && s.len() >= 5 {
            lemma_spec_parse_values_bounds(s.skip(5), be32(s[1], s[2], s[3], s[4]) as nat);
        } else if tag == 0xde && s.len() >= 3 {
            lemma_spec_parse_values_bounds(s.skip(3), 2 * (be16(s[1], s[2]) as nat));
        } else if tag == 0xdf && s.len() >= 5 {
            lemma_spec_parse_values_bounds(s.skip(5), 2 * (be32(s[1], s[2], s[3], s[4]) as nat));
        }
    }
}

/// `n` successfully parsed values are exactly `n` values and occupy at most
/// `s.len()` bytes; a failure points at an offset inside `s`.
pub proof fn lemma_spec_parse_values_bounds(s: Seq<u8>, n: nat)
    ensures
        spec_parse_values(s, n) matches Ok((vs, c)) ==> vs.len() == n && n <= c <= s.len(),
        spec_parse_values(s, n) matches Err(o) ==> 0 <= o <= s.len(),
    decreases s.len(), 1int, n,
{
    if n > 0 {
        lemma_spec_parse_bounds(s);
        match spec_parse(s) {
            Err(o) => {},
            Ok((v, c)) => {
                if 1 <= c <= s.len() {
                    lemma_spec_parse_values_bounds(s.skip(c), (n - 1) as nat);
                }
            },
        }
    }
}

/// Appending one key-value pair of values to an even-length sequence
/// appends one pair to its pairing.
pub proof fn lemma_pairs_snoc(vs: Seq<SpecMsgPack>, k: SpecMsgPack, v: SpecMsgPack)
    requires
        vs.len() % 2 == 0,
    ensures
        spec_pairs(vs + seq![k, v]) == spec_pairs(vs).push((k, v)),
{
    assert(spec_pairs(vs + seq![k, v]) =~= spec_pairs(vs).push((k, v)));
}

} // verus!
