//! Theorems about the wire format: decoding is a left inverse of encoding.

use vstd::prelude::*;
use vstd::utf8::decode_utf8_encode_utf8;
use vstd::utf8::encode_utf8;
use vstd::utf8::encode_utf8_decode_utf8;
use vstd::utf8::encode_utf8_valid_utf8;

use crate::wire::SpecMsgPack;
use crate::wire::be16;
use crate::wire::be32;
use crate::wire::be64;
use crate::wire::be_bytes2;
use crate::wire::be_bytes4;
use crate::wire::be_bytes8;
use crate::wire::bin_header;
use crate::wire::ext_header;
use crate::wire::ext_type_byte;
use crate::wire::ext_type_of_byte;
use crate::wire::lemma_spec_parse_bounds;
use crate::wire::lemma_spec_parse_values_bounds;
use crate::wire::sign_extend;
use crate::wire::spec_encode;
use crate::wire::spec_encode_entries_from;
use crate::wire::spec_encode_int;
use crate::wire::spec_encode_seq_from;
use crate::wire::spec_encode_uint;
use crate::wire::spec_pairs;
use crate::wire::spec_parse;
use crate::wire::spec_parse_str_payload;
use crate::wire::spec_parse_values;
use crate::wire::str_header;
use crate::wire::twos_complement;
use crate::wire::wf;
use crate::wire::wf_entries_from;
use crate::wire::wf_seq_from;

verus! {

/// Masking a byte-sized value with 0xff leaves it unchanged.
proof fn lemma_byte_mask_id(x: u64)
    requires
        x <= 0xff,
    ensures
        x & 0xff == x,
{
    assert(x <= 0xff ==> x & 0xff == x) by (bit_vector);
}

/// Reading back the two big-endian bytes of a 16-bit value gives the value.
proof fn lemma_be2_roundtrip(x: u64)
    requires
        x <= 0xffff,
    ensures
        be16(((x >> 8) & 0xff) as u8, (x & 0xff) as u8) == x,
{
    assert((((((x >> 8) & 0xff) as u8) as u64) << 8) | (((x & 0xff) as u8) as u64)
        == x) by (bit_vector)
        requires
            x <= 0xffff,
    ;
}

/// Reading back the four big-endian bytes of a 32-bit value gives the value.
proof fn lemma_be4_roundtrip(x: u64)
    requires
        x <= 0xffff_ffff,
    ensures
        be32(
            ((x >> 24) & 0xff) as u8,
            ((x >> 16) & 0xff) as u8,
            ((x >> 8) & 0xff) as u8,
            (x & 0xff) as u8,
        ) == x,
{
    assert((((((x >> 24) & 0xff) as u8) as u64) << 24) | (((((x >> 16) & 0xff) as u8) as u64)
        << 16) | (((((x >> 8) & 0xff) as u8) as u64) << 8) | (((x & 0xff) as u8) as u64)
        == x) by (bit_vector)
        requires
            x <= 0xffff_ffff,
    ;
}

/// Reading back the eight big-endian bytes of a value gives the value.
proof fn lemma_be8_roundtrip(x: u64)
    ensures
        be64(
            ((x >> 56) & 0xff) as u8,
            ((x >> 48) & 0xff) as u8,
            ((x >> 40) & 0xff) as u8,
            ((x >> 32) & 0xff) as u8,
            ((x >> 24) & 0xff) as u8,
            ((x >> 16) & 0xff) as u8,
            ((x >> 8) & 0xff) as u8,
            (x & 0xff) as u8,
        ) == x,
{
    assert((((((x >> 56) & 0xff) as u8) as u64) << 56) | (((((x >> 48) & 0xff) as u8) as u64)
        << 48) | (((((x >> 40) & 0xff) as u8) as u64) << 40) | (((((x >> 32) & 0xff) as u8)
        as u64) << 32) | (((((x >> 24) & 0xff) as u8) as u64) << 24) | (((((x >> 16) & 0xff)
        as u8) as u64) << 16) | (((((x >> 8) & 0xff) as u8) as u64) << 8) | (((x & 0xff) as u8)
        as u64) == x) by (bit_vector);
}

/// A signed integer decodes from its own encoding, with nothing after it
/// disturbing the parse.
proof fn lemma_parse_encode_int(v: i64, rest: Seq<u8>)
    ensures
        spec_parse(spec_encode_int(v) + rest) == Ok::<(SpecMsgPack, int), int>((
            SpecMsgPack::Int(v),
            spec_encode_int(v).len() as int,
        )),
{
    let s = spec_encode_int(v) + rest;
    if 0 <= v <= 127 {
        assert(s[0] == v as u8);
    } else if -32 <= v < 0 {
        assert(s[0] == (v + 256) as u8);
    } else if -128 <= v < -32 {
        let t = twos_complement(v, 0x100);
        lemma_byte_mask_id(t);
        assert(s[0] == 0xd0 && s[1] == t as u8);
        assert(sign_extend((t as u8) as u64, 0x100) == v);
    } else if -0x8000 <= v < 0x8000 {
        let t = twos_complement(v, 0x1_0000);
        lemma_be2_roundtrip(t);
        assert(s[0] == 0xd1 && s[1] == be_bytes2(t)[0] && s[2] == be_bytes2(t)[1]);
        assert(be16(s[1], s[2]) == t);
        assert(sign_extend(t, 0x1_0000) == v);
    } else if -0x8000_0000 <= v < 0x8000_0000 {
        let t = twos_complement(v, 0x1_0000_0000);
        lemma_be4_roundtrip(t);
        assert(s[0] == 0xd2 && s[1] == be_bytes4(t)[0] && s[2] == be_bytes4(t)[1] && s[3]
            == be_bytes4(t)[2] && s[4] == be_bytes4(t)[3]);
        assert(be32(s[1], s[2], s[3], s[4]) == t);
        assert(sign_extend(t, 0x1_0000_0000) == v);
    } else {
        let t = twos_complement(v, 0x1_0000_0000_0000_0000);
        lemma_be8_roundtrip(t);
        assert(s[0] == 0xd3 && s[1] == be_bytes8(t)[0] && s[2] == be_bytes8(t)[1] && s[3]
            == be_bytes8(t)[2] && s[4] == be_bytes8(t)[3] && s[5] == be_bytes8(t)[4] && s[6]
            == be_bytes8(t)[5] && s[7] == be_bytes8(t)[6] && s[8] == be_bytes8(t)[7]);
        assert(be64(s[1], s[2], s[3], s[4], s[5], s[6], s[7], s[8]) == t);
        assert(sign_extend(t, 0x1_0000_0000_0000_0000) == v);
    }
}

/// An unsigned integer decodes from its own encoding.
proof fn lemma_parse_encode_uint(v: u64, rest: Seq<u8>)
    ensures
        spec_parse(spec_encode_uint(v) + rest) == Ok::<(SpecMsgPack, int), int>((
            SpecMsgPack::Uint(v),
            spec_encode_uint(v).len() as int,
        )),
{
    let s = spec_encode_uint(v) + rest;
    if v <= 0xff {
        lemma_byte_mask_id(v);
        assert(s[0] == 0xcc && s[1] == v as u8);
    } else if v <= 0xffff {
        lemma_be2_roundtrip(v);
        assert(s[0] == 0xcd && s[1] == be_bytes2(v)[0] && s[2] == be_bytes2(v)[1]);
        assert(be16(s[1], s[2]) == v);
    } else if v <= 0xffff_ffff {
        lemma_be4_roundtrip(v);
        assert(s[0] == 0xce && s[1] == be_bytes4(v)[0] && s[2] == be_bytes4(v)[1] && s[3]
            == be_bytes4(v)[2] && s[4] == be_bytes4(v)[3]);
        assert(be32(s[1], s[2], s[3], s[4]) == v);
    } else {
        lemma_be8_roundtrip(v);
        assert(s[0] == 0xcf && s[1] == be_bytes8(v)[0] && s[2] == be_bytes8(v)[1] && s[3]
            == be_bytes8(v)[2] && s[4] == be_bytes8(v)[3] && s[5] == be_bytes8(v)[4] && s[6]
            == be_bytes8(v)[5] && s[7] == be_bytes8(v)[6] && s[8] == be_bytes8(v)[7]);
        assert(be64(s[1], s[2], s[3], s[4], s[5], s[6], s[7], s[8]) == v);
    }
}

/// A float decodes from its own (always 9-byte) encoding.
proof fn lemma_parse_encode_float(bits: u64, rest: Seq<u8>)
    ensures
        spec_parse(seq![0xcbu8] + be_bytes8(bits) + rest) == Ok::<(SpecMsgPack, int), int>((
            SpecMsgPack::Float(bits),
            9,
        )),
{
    let s = seq![0xcbu8] + be_bytes8(bits) + rest;
    lemma_be8_roundtrip(bits);
    assert(s[0] == 0xcb && s[1] == be_bytes8(bits)[0] && s[2] == be_bytes8(bits)[1] && s[3]
        == be_bytes8(bits)[2] && s[4] == be_bytes8(bits)[3] && s[5] == be_bytes8(bits)[4] && s[6]
        == be_bytes8(bits)[5] && s[7] == be_bytes8(bits)[6] && s[8] == be_bytes8(bits)[7]);
    assert(be64(s[1], s[2], s[3], s[4], s[5], s[6], s[7], s[8]) == bits);
}

/// A header-plus-payload encoding hands the parser back exactly the
/// payload: the length field decodes to the payload length and the payload
/// bytes sit right after the header.
proof fn lemma_header_payload(header: Seq<u8>, payload: Seq<u8>, rest: Seq<u8>)
    ensures
        (header + payload + rest).subrange(
            header.len() as int,
            header.len() + payload.len() as int,
        ) =~= payload,
        (header + payload + rest).len() == header.len() + payload.len() + rest.len(),
{
}

/// A string decodes from its own encoding.
proof fn lemma_parse_encode_string(chars: Seq<char>, rest: Seq<u8>)
    requires
        encode_utf8(chars).len() <= 0xffff_ffff,
    ensures
        spec_parse(spec_encode(SpecMsgPack::String(chars)) + rest) == Ok::<
            (SpecMsgPack, int),
            int,
        >((SpecMsgPack::String(chars), spec_encode(SpecMsgPack::String(chars)).len() as int)),
{
    let payload = encode_utf8(chars);
    let n = payload.len() as int;
    let header = str_header(payload.len());
    let s = header + payload + rest;
    assert(spec_encode(SpecMsgPack::String(chars)) + rest =~= s);
    encode_utf8_valid_utf8(chars);
    encode_utf8_decode_utf8(chars);
    lemma_header_payload(header, payload, rest);
    if n < 32 {
        assert(s[0] == (0xa0 + n) as u8);
        assert(0xa0 <= s[0] <= 0xbf);
        assert(spec_parse_str_payload(s, 1, n) == Ok::<(SpecMsgPack, int), int>((
            SpecMsgPack::String(chars),
            1 + n,
        )));
    } else if n <= 0xff {
        assert(s[0] == 0xd9 && s[1] == payload.len() as u8);
        assert(s[1] as int == n);
        assert(spec_parse_str_payload(s, 2, n) == Ok::<(SpecMsgPack, int), int>((
            SpecMsgPack::String(chars),
            2 + n,
        )));
    } else if n <= 0xffff {
        lemma_be2_roundtrip(payload.len() as u64);
        assert(s[0] == 0xda && s[1] == be_bytes2(payload.len() as u64)[0] && s[2] == be_bytes2(
            payload.len() as u64,
        )[1]);
        assert(be16(s[1], s[2]) as int == n);
        assert(spec_parse_str_payload(s, 3, n) == Ok::<(SpecMsgPack, int), int>((
            SpecMsgPack::String(chars),
            3 + n,
        )));
    } else {
        let x = payload.len() as u64;
        assert(header == seq![0xdbu8] + be_bytes4((payload.len() % 0x1_0000_0000) as u64));
        assert((payload.len() % 0x1_0000_0000) as u64 == x);
        lemma_be4_roundtrip(x);
        assert(s[0] == 0xdb && s[1] == be_bytes4(x)[0] && s[2] == be_bytes4(x)[1] && s[3]
            == be_bytes4(x)[2] && s[4] == be_bytes4(x)[3]);
        assert(be32(s[1], s[2], s[3], s[4]) as int == n);
        assert(spec_parse_str_payload(s, 5, n) == Ok::<(SpecMsgPack, int), int>((
            SpecMsgPack::String(chars),
            5 + n,
        )));
    }
}

/// A binary decodes from its own encoding.
proof fn lemma_parse_encode_binary(payload: Seq<u8>, rest: Seq<u8>)
    requires
        payload.len() <= 0xffff_ffff,
    ensures
        spec_parse(bin_header(payload.len()) + payload + rest) == Ok::<(SpecMsgPack, int), int>((
            SpecMsgPack::Binary(payload),
            (bin_header(payload.len()).len() + payload.len()) as int,
        )),
{
    let n = payload.len() as int;
    let header = bin_header(payload.len());
    let s = header + payload + rest;
    lemma_header_payload(header, payload, rest);
    if n <= 0xff {
        assert(s[0] == 0xc4 && s[1] == payload.len() as u8);
        assert(s[1] as int == n);
    } else if n <= 0xffff {
        lemma_be2_roundtrip(payload.len() as u64);
        assert(s[0] == 0xc5 && s[1] == be_bytes2(payload.len() as u64)[0] && s[2] == be_bytes2(
            payload.len() as u64,
        )[1]);
        assert(be16(s[1], s[2]) as int == n);
    } else {
        let x = payload.len() as u64;
        assert((payload.len() % 0x1_0000_0000) as u64 == x);
        lemma_be4_roundtrip(x);
        assert(s[0] == 0xc6 && s[1] == be_bytes4(x)[0] && s[2] == be_bytes4(x)[1] && s[3]
            == be_bytes4(x)[2] && s[4] == be_bytes4(x)[3]);
        assert(be32(s[1], s[2], s[3], s[4]) as int == n);
    }
}

/// An extension decodes from its own encoding.
proof fn lemma_parse_encode_extension(t: i8, payload: Seq<u8>, rest: Seq<u8>)
    requires
        payload.len() <= 0xffff_ffff,
    ensures
        spec_parse(spec_encode(SpecMsgPack::Extension(t, payload)) + rest) == Ok::<
            (SpecMsgPack, int),
            int,
        >((
            SpecMsgPack::Extension(t, payload),
            spec_encode(SpecMsgPack::Extension(t, payload)).len() as int,
        )),
{
    let n = payload.len() as int;
    let header = ext_header(payload.len()) + seq![ext_type_byte(t)];
    let s = header + payload + rest;
    assert(spec_encode(SpecMsgPack::Extension(t, payload)) + rest =~= s);
    assert(ext_type_of_byte(ext_type_byte(t)) == t);
    lemma_header_payload(header, payload, rest);
    if n == 1 || n == 2 || n == 4 || n == 8 || n == 16 {
        assert(s[0] == ext_header(payload.len())[0]);
        assert(s[1] == ext_type_byte(t));
        assert(s.subrange(2, 2 + n) =~= payload);
    } else if n <= 0xff {
        assert(s[0] == 0xc7 && s[1] == payload.len() as u8 && s[2] == ext_type_byte(t));
        assert(s[1] as int == n);
        assert(s.subrange(3, 3 + n) =~= payload);
    } else if n <= 0xffff {
        lemma_be2_roundtrip(payload.len() as u64);
        assert(s[0] == 0xc8 && s[1] == be_bytes2(payload.len() as u64)[0] && s[2] == be_bytes2(
            payload.len() as u64,
        )[1] && s[3] == ext_type_byte(t));
        assert(be16(s[1], s[2]) as int == n);
        assert(s.subrange(4, 4 + n) =~= payload);
    } else {
        let x = payload.len() as u64;
        assert((payload.len() % 0x1_0000_0000) as u64 == x);
        lemma_be4_roundtrip(x);
        assert(s[0] == 0xc9 && s[1] == be_bytes4(x)[0] && s[2] == be_bytes4(x)[1] && s[3]
            == be_bytes4(x)[2] && s[4] == be_bytes4(x)[3] && s[5] == ext_type_byte(t));
        assert(be32(s[1], s[2], s[3], s[4]) as int == n);
        assert(s.subrange(6, 6 + n) =~= payload);
    }
}

/// The keys and values of `entries[i..]`, flattened in wire order.
spec fn flatten_from(entries: Seq<(SpecMsgPack, SpecMsgPack)>, i: nat) -> Seq<SpecMsgPack>
    decreases entries.len() - i,
{
    if i >= entries.len() {
        Seq::empty()
    } else {
        seq![entries[i as int].0, entries[i as int].1] + flatten_from(entries, i + 1)
    }
}

/// Shape of the flattened entries: twice as many values, keys at even and
/// values at odd positions.
proof fn lemma_flatten_from(entries: Seq<(SpecMsgPack, SpecMsgPack)>, i: nat)
    requires
        i <= entries.len(),
    ensures
        flatten_from(entries, i).len() == 2 * (entries.len() - i),
        forall|j: int|
            0 <= j < 2 * (entries.len() - i) ==> #[trigger] flatten_from(entries, i)[j] == (
            if j % 2 == 0 {
                entries[i + j / 2].0
            } else {
                entries[i + j / 2].1
            }),
    decreases entries.len() - i,
{
    if i < entries.len() {
        lemma_flatten_from(entries, i + 1);
        let f = flatten_from(entries, i);
        let g = flatten_from(entries, i + 1);
        assert forall|j: int| 0 <= j < 2 * (entries.len() - i) implies #[trigger] f[j] == (
        if j % 2 == 0 {
            entries[i + j / 2].0
        } else {
            entries[i + j / 2].1
        }) by {
            if j >= 2 {
                assert(f[j] == g[j - 2]);
                assert((j - 2) / 2 == j / 2 - 1);
                assert((j - 2) % 2 == j % 2);
            }
        }
    }
}

/// Pairing the flattened entries gives the entries back.
proof fn lemma_pairs_flatten(entries: Seq<(SpecMsgPack, SpecMsgPack)>)
    ensures
        spec_pairs(flatten_from(entries, 0)) == entries,
{
    lemma_flatten_from(entries, 0);
    let f = flatten_from(entries, 0);
    assert forall|k: int| 0 <= k < entries.len() implies spec_pairs(f)[k] == entries[k] by {
        assert(f[2 * k] == entries[k].0);
        assert(f[2 * k + 1] == entries[k].1);
    }
    assert(spec_pairs(f) =~= entries);
}

/// Every well-formed value decodes from its own encoding, whatever bytes
/// follow it, consuming exactly its encoding.
pub proof fn lemma_parse_encode(v: SpecMsgPack, rest: Seq<u8>)
    requires
        wf(v),
    ensures
        spec_parse(spec_encode(v) + rest) == Ok::<(SpecMsgPack, int), int>((
            v,
            spec_encode(v).len() as int,
        )),
    decreases v, 0int, 0nat,
{
    let s = spec_encode(v) + rest;
    match v {
        SpecMsgPack::Nil => {
            assert(s[0] == 0xc0);
        },
        SpecMsgPack::Boolean(b) => {
            assert(s[0] == if b {
                0xc3u8
            } else {
                0xc2u8
            });
        },
        SpecMsgPack::Int(i) => {
            lemma_parse_encode_int(i, rest);
        },
        SpecMsgPack::Uint(u) => {
            lemma_parse_encode_uint(u, rest);
        },
        SpecMsgPack::Float(bits) => {
            lemma_parse_encode_float(bits, rest);
            assert(spec_encode(v) + rest =~= seq![0xcbu8] + be_bytes8(bits) + rest);
            assert(spec_encode(v).len() == 9);
        },
        SpecMsgPack::String(chars) => {
            lemma_parse_encode_string(chars, rest);
        },
        SpecMsgPack::Binary(payload) => {
            lemma_parse_encode_binary(payload, rest);
            assert(spec_encode(v) + rest =~= bin_header(payload.len()) + payload + rest);
        },
        SpecMsgPack::Extension(t, payload) => {
            lemma_parse_encode_extension(t, payload, rest);
        },
        SpecMsgPack::Array(items) => {
            let n = items.len();
            let header = crate::wire::array_header(n);
            let body = spec_encode_seq_from(items, 0);
            assert(s =~= header + (body + rest));
            lemma_parse_encode_seq(items, 0, rest);
            assert(items.skip(0) =~= items);
            if n < 16 {
                assert(s[0] == (0x90 + n) as u8);
                assert(s.skip(1) =~= body + rest);
                assert(((0x90 + n) as u8 - 0x90) as nat == n);
            } else if n <= 0xffff {
                lemma_be2_roundtrip(n as u64);
                assert(s[0] == 0xdc && s[1] == be_bytes2(n as u64)[0] && s[2] == be_bytes2(
                    n as u64,
                )[1]);
                assert(be16(s[1], s[2]) as nat == n);
                assert(s.skip(3) =~= body + rest);
            } else {
                let x = n as u64;
                assert((n % 0x1_0000_0000) as u64 == x);
                lemma_be4_roundtrip(x);
                assert(s[0] == 0xdd && s[1] == be_bytes4(x)[0] && s[2] == be_bytes4(x)[1] && s[3]
                    == be_bytes4(x)[2] && s[4] == be_bytes4(x)[3]);
                assert(be32(s[1], s[2], s[3], s[4]) as nat == n);
                assert(s.skip(5) =~= body + rest);
            }
        },
        SpecMsgPack::Mapping(entries) => {
            let n = entries.len();
            let header = crate::wire::map_header(n);
            let body = spec_encode_entries_from(entries, 0);
            assert(s =~= header + (body + rest));
            lemma_parse_encode_entries(entries, 0, rest);
            lemma_pairs_flatten(entries);
            if n < 16 {
                assert(s[0] == (0x80 + n) as u8);
                assert(s.skip(1) =~= body + rest);
                assert(((0x80 + n) as u8 - 0x80) as nat == n);
            } else if n <= 0xffff {
                lemma_be2_roundtrip(n as u64);
                assert(s[0] == 0xde && s[1] == be_bytes2(n as u64)[0] && s[2] == be_bytes2(
                    n as u64,
                )[1]);
                assert(be16(s[1], s[2]) as nat == n);
                assert(s.skip(3) =~= body + rest);
            } else {
                let x = n as u64;
                assert((n % 0x1_0000_0000) as u64 == x);
                lemma_be4_roundtrip(x);
                assert(s[0] == 0xdf && s[1] == be_bytes4(x)[0] && s[2] == be_bytes4(x)[1] && s[3]
                    == be_bytes4(x)[2] && s[4] == be_bytes4(x)[3]);
                assert(be32(s[1], s[2], s[3], s[4]) as nat == n);
                assert(s.skip(5) =~= body + rest);
            }
        },
    }
}

/// The elements of `items[i..]`, encoded one after the other, parse back as
/// exactly those elements.
proof fn lemma_parse_encode_seq(items: Seq<SpecMsgPack>, i: nat, rest: Seq<u8>)
    requires
        i <= items.len(),
        wf_seq_from(items, i),
    ensures
        spec_parse_values(
            spec_encode_seq_from(items, i) + rest,
            (items.len() - i) as nat,
        ) == Ok::<(Seq<SpecMsgPack>, int), int>((
            items.skip(i as int),
            spec_encode_seq_from(items, i).len() as int,
        )),
    decreases items, 1int, items.len() - i,
{
    let body = spec_encode_seq_from(items, i);
    let s = body + rest;
    if i == items.len() {
        assert(items.skip(i as int) =~= Seq::<SpecMsgPack>::empty());
    } else {
        let e0 = spec_encode(items[i as int]);
        let tail = spec_encode_seq_from(items, i + 1);
        assert(s =~= e0 + (tail + rest));
        lemma_parse_encode(items[i as int], tail + rest);
        lemma_spec_parse_bounds(s);
        lemma_parse_encode_seq(items, i + 1, rest);
        assert(s.skip(e0.len() as int) =~= tail + rest);
        assert(seq![items[i as int]] + items.skip(i as int + 1) =~= items.skip(i as int));
    }
}

/// The entries of `entries[i..]`, each encoded as key then value, parse
/// back as the flattened keys and values.
#[verifier::rlimit(60)]
proof fn lemma_parse_encode_entries(
    entries: Seq<(SpecMsgPack, SpecMsgPack)>,
    i: nat,
    rest: Seq<u8>,
)
    requires
        i <= entries.len(),
        wf_entries_from(entries, i),
    ensures
        spec_parse_values(
            spec_encode_entries_from(entries, i) + rest,
            2 * ((entries.len() - i) as nat),
        ) == Ok::<(Seq<SpecMsgPack>, int), int>((
            flatten_from(entries, i),
            spec_encode_entries_from(entries, i).len() as int,
        )),
    decreases entries, 1int, entries.len() - i,
{
    let body = spec_encode_entries_from(entries, i);
    let s = body + rest;
    if i == entries.len() {
    } else {
        let ek = spec_encode(entries[i as int].0);
        let ev = spec_encode(entries[i as int].1);
        let tail = spec_encode_entries_from(entries, i + 1);
        assert(s =~= ek + (ev + (tail + rest)));
        lemma_parse_encode(entries[i as int].0, ev + (tail + rest));
        lemma_spec_parse_bounds(s);
        let s1 = ev + (tail + rest);
        assert(s.skip(ek.len() as int) =~= s1);
        lemma_parse_encode(entries[i as int].1, tail + rest);
        lemma_spec_parse_bounds(s1);
        lemma_parse_encode_entries(entries, i + 1, rest);
        assert(s1.skip(ev.len() as int) =~= tail + rest);
        let m: nat = (entries.len() - i) as nat;
        assert(((2 * m - 1) as nat - 1) as nat == 2 * ((m - 1) as nat));
        assert(entries.len() - (i + 1) == m - 1);
        assert(spec_parse_values(s1, (2 * m - 1) as nat) == Ok::<(Seq<SpecMsgPack>, int), int>((
            seq![entries[i as int].1] + flatten_from(entries, i + 1),
            ev.len() + tail.len() as int,
        )));
        assert(spec_parse_values(s, 2 * m) == Ok::<(Seq<SpecMsgPack>, int), int>((
            seq![entries[i as int].0] + (seq![entries[i as int].1] + flatten_from(
                entries,
                i + 1,
            )),
            ek.len() + (ev.len() + tail.len() as int),
        )));
        assert(seq![entries[i as int].0] + (seq![entries[i as int].1] + flatten_from(
            entries,
            i + 1,
        )) =~= flatten_from(entries, i));
        assert(body.len() == ek.len() + (ev.len() + tail.len()));
    }
}

/// A value with no floating-point leaf at any nesting level.
///
/// The encoder writes every float in the 9-byte binary64 form, never the
/// 5-byte binary32 form the decoder also accepts, so minimality claims
/// stop at float leaves.
pub open spec fn float_free(v: SpecMsgPack) -> bool
    decreases v, 0int,
{
    match v {
        SpecMsgPack::Float(_) => false,
        SpecMsgPack::Array(items) => float_free_seq_from(items, 0),
        SpecMsgPack::Mapping(entries) => float_free_entries_from(entries, 0),
        _ => true,
    }
}

/// No element of `items[i..]` holds a floating-point leaf.
pub open spec fn float_free_seq_from(items: Seq<SpecMsgPack>, i: nat) -> bool
    decreases items, 1int, items.len() - i,
{
    i >= items.len() || (float_free(items[i as int]) && float_free_seq_from(items, i + 1))
}

/// No key or value of `entries[i..]` holds a floating-point leaf.
pub open spec fn float_free_entries_from(entries: Seq<(SpecMsgPack, SpecMsgPack)>, i: nat) -> bool
    decreases entries, 1int, entries.len() - i,
{
    i >= entries.len() || (float_free(entries[i as int].0) && float_free(entries[i as int].1)
        && float_free_entries_from(entries, i + 1))
}

/// Two big-endian bytes read below 0x10000.
proof fn lemma_be16_bound(b0: u8, b1: u8)
    ensures
        be16(b0, b1) <= 0xffff,
{
    assert(((b0 as u64) << 8) | (b1 as u64) <= 0xffff) by (bit_vector);
}

/// Four big-endian bytes read below 0x1_0000_0000.
proof fn lemma_be32_bound(b0: u8, b1: u8, b2: u8, b3: u8)
    ensures
        be32(b0, b1, b2, b3) <= 0xffff_ffff,
{
    assert(((b0 as u64) << 24) | ((b1 as u64) << 16) | ((b2 as u64) << 8) | (b3 as u64)
        <= 0xffff_ffff) by (bit_vector);
}

/// Prepending one value shifts the tail of an encoded sequence by one.
proof fn lemma_enc_seq_shift(v0: SpecMsgPack, items: Seq<SpecMsgPack>, i: nat)
    requires
        i <= items.len(),
    ensures
        spec_encode_seq_from(seq![v0] + items, i + 1) == spec_encode_seq_from(items, i),
    decreases items.len() - i,
{
    let a = seq![v0] + items;
    if i < items.len() {
        lemma_enc_seq_shift(v0, items, i + 1);
        assert(a[i as int + 1] == items[i as int]);
    } else {
        assert(spec_encode_seq_from(a, i + 1) == Seq::<u8>::empty());
    }
}

/// Prepending one value shifts the tail of the float-free condition by one.
proof fn lemma_float_free_seq_shift(v0: SpecMsgPack, items: Seq<SpecMsgPack>, i: nat)
    requires
        i <= items.len(),
    ensures
        float_free_seq_from(seq![v0] + items, i + 1) == float_free_seq_from(items, i),
    decreases items.len() - i,
{
    let a = seq![v0] + items;
    if i < items.len() {
        lemma_float_free_seq_shift(v0, items, i + 1);
        assert(a[i as int + 1] == items[i as int]);
    }
}

/// The float-free condition on paired entries is the float-free condition
/// on the flat values they were paired from.
proof fn lemma_float_free_pairs(vs: Seq<SpecMsgPack>, i: nat)
    requires
        vs.len() % 2 == 0,
        2 * i <= vs.len(),
        float_free_entries_from(spec_pairs(vs), i),
    ensures
        float_free_seq_from(vs, 2 * i),
    decreases vs.len() - 2 * i,
{
    if 2 * i < vs.len() {
        assert(spec_pairs(vs)[i as int] == (vs[2 * i as int], vs[2 * i as int + 1]));
        lemma_float_free_pairs(vs, i + 1);
        assert(float_free_seq_from(vs, 2 * i + 1));
    }
}

/// Pairs encode as their flat values do: entry after entry is key, value,
/// key, value.
proof fn lemma_enc_entries_pairs(vs: Seq<SpecMsgPack>, i: nat)
    requires
        vs.len() % 2 == 0,
        2 * i <= vs.len(),
    ensures
        spec_encode_entries_from(spec_pairs(vs), i).len() == spec_encode_seq_from(
            vs,
            2 * i,
        ).len(),
    decreases vs.len() - 2 * i,
{
    if 2 * i < vs.len() {
        assert(spec_pairs(vs)[i as int] == (vs[2 * i as int], vs[2 * i as int + 1]));
        lemma_enc_entries_pairs(vs, i + 1);
        assert(spec_encode_seq_from(vs, 2 * i) == spec_encode(vs[2 * i as int])
            + spec_encode_seq_from(vs, 2 * i + 1));
        assert(spec_encode_seq_from(vs, 2 * i + 1) == spec_encode(vs[2 * i as int + 1])
            + spec_encode_seq_from(vs, 2 * i + 2));
    }
}

/// Minimal encoding: no wire representation of a float-free value is
/// shorter than the one the encoder picks.  Whenever some byte string
/// parses to `v` in `c` bytes, the canonical encoding of `v` takes at most
/// `c` bytes.  Floats are excluded because the decoder also accepts the
/// 5-byte binary32 form while the encoder deliberately always writes the
/// 9-byte binary64 form.
#[verifier::rlimit(100)]
pub proof fn lemma_minimal_encoding(s: Seq<u8>, v: SpecMsgPack, c: int)
    requires
        spec_parse(s) == Ok::<(SpecMsgPack, int), int>((v, c)),
        float_free(v),
    ensures
        spec_encode(v).len() <= c,
    decreases s.len(), 0int, 1nat,
{
    assert(s.len() > 0);
    let tag = s[0];
    if tag <= 0x7f {
    } else if tag >= 0xe0 {
    } else if tag <= 0x8f {
        let n = (tag - 0x80) as nat;
        lemma_minimal_mapping(s, 1, n, v, c);
    } else if tag <= 0x9f {
        let n = (tag - 0x90) as nat;
        lemma_minimal_array(s, 1, n, v, c);
    } else if tag <= 0xbf {
        let n = (tag - 0xa0) as int;
        let payload = s.subrange(1, 1 + n);
        decode_utf8_encode_utf8(payload);
    } else if tag == 0xc4 {
        let payload = s.subrange(2, 2 + s[1] as int);
    } else if tag == 0xc5 {
        lemma_be16_bound(s[1], s[2]);
    } else if tag == 0xc6 {
        lemma_be32_bound(s[1], s[2], s[3], s[4]);
    } else if tag == 0xc7 {
    } else if tag == 0xc8 {
        lemma_be16_bound(s[1], s[2]);
    } else if tag == 0xc9 {
        lemma_be32_bound(s[1], s[2], s[3], s[4]);
    } else if tag == 0xca || tag == 0xcb {
        // a float is never float-free
        assert(false);
    } else if tag == 0xcc {
    } else if tag == 0xcd {
        lemma_be16_bound(s[1], s[2]);
    } else if tag == 0xce {
        lemma_be32_bound(s[1], s[2], s[3], s[4]);
    } else if tag == 0xcf {
    } else if tag == 0xd0 {
    } else if tag == 0xd1 {
        lemma_be16_bound(s[1], s[2]);
    } else if tag == 0xd2 {
        lemma_be32_bound(s[1], s[2], s[3], s[4]);
    } else if tag == 0xd3 {
    } else if tag <= 0xd8 {
    } else if tag == 0xd9 {
        let payload = s.subrange(2, 2 + s[1] as int);
        decode_utf8_encode_utf8(payload);
    } else if tag == 0xda {
        lemma_be16_bound(s[1], s[2]);
        let payload = s.subrange(3, 3 + be16(s[1], s[2]) as int);
        decode_utf8_encode_utf8(payload);
    } else if tag == 0xdb {
        lemma_be32_bound(s[1], s[2], s[3], s[4]);
        let payload = s.subrange(5, 5 + be32(s[1], s[2], s[3], s[4]) as int);
        decode_utf8_encode_utf8(payload);
    } else if tag == 0xdc {
        lemma_be16_bound(s[1], s[2]);
        lemma_minimal_array(s, 3, be16(s[1], s[2]) as nat, v, c);
    } else if tag == 0xdd {
        lemma_be32_bound(s[1], s[2], s[3], s[4]);
        lemma_minimal_array(s, 5, be32(s[1], s[2], s[3], s[4]) as nat, v, c);
    } else if tag == 0xde {
        lemma_be16_bound(s[1], s[2]);
        lemma_minimal_mapping(s, 3, be16(s[1], s[2]) as nat, v, c);
    } else {
        lemma_be32_bound(s[1], s[2], s[3], s[4]);
        lemma_minimal_mapping(s, 5, be32(s[1], s[2], s[3], s[4]) as nat, v, c);
    }
}

/// The array case of `lemma_minimal_encoding`: `n` elements parsed after a
/// header of `h` bytes.
proof fn lemma_minimal_array(s: Seq<u8>, h: int, n: nat, v: SpecMsgPack, c: int)
    requires
        1 <= h <= s.len(),
        spec_parse_values(s.skip(h), n) matches Ok(q) && v == SpecMsgPack::Array(q.0) && c == h
            + q.1,
        float_free(v),
        crate::wire::array_header(n).len() <= h,
    ensures
        spec_encode(v).len() <= c,
    decreases s.len(), 0int, 0nat,
{
    let q = spec_parse_values(s.skip(h), n)->Ok_0;
    lemma_spec_parse_values_bounds(s.skip(h), n);
    lemma_minimal_values(s.skip(h), n, q.0, q.1);
}

/// The map case of `lemma_minimal_encoding`: `n` entries parsed after a
/// header of `h` bytes.
proof fn lemma_minimal_mapping(s: Seq<u8>, h: int, n: nat, v: SpecMsgPack, c: int)
    requires
        1 <= h <= s.len(),
        spec_parse_values(s.skip(h), 2 * n) matches Ok(q) && v == SpecMsgPack::Mapping(
            spec_pairs(q.0),
        ) && c == h + q.1,
        float_free(v),
        crate::wire::map_header(n).len() <= h,
    ensures
        spec_encode(v).len() <= c,
    decreases s.len(), 0int, 0nat,
{
    let q = spec_parse_values(s.skip(h), 2 * n)->Ok_0;
    lemma_spec_parse_values_bounds(s.skip(h), 2 * n);
    assert(q.0.len() == 2 * n);
    lemma_float_free_pairs(q.0, 0);
    lemma_minimal_values(s.skip(h), 2 * n, q.0, q.1);
    lemma_enc_entries_pairs(q.0, 0);
    assert(spec_pairs(q.0).len() == n);
}

/// Consecutive parsed values take at least as many bytes as their
/// canonical encodings together.
proof fn lemma_minimal_values(s: Seq<u8>, n: nat, vs: Seq<SpecMsgPack>, c: int)
    requires
        spec_parse_values(s, n) == Ok::<(Seq<SpecMsgPack>, int), int>((vs, c)),
        float_free_seq_from(vs, 0),
    ensures
        spec_encode_seq_from(vs, 0).len() <= c,
    decreases s.len(), 1int, n,
{
    if n == 0 {
    } else {
        match spec_parse(s) {
            Err(_) => {
                assert(false);
            },
            Ok((v0, c0)) => {
                lemma_spec_parse_bounds(s);
                assert(1 <= c0 <= s.len());
                match spec_parse_values(s.skip(c0), (n - 1) as nat) {
                    Err(_) => {
                        assert(false);
                    },
                    Ok((vs2, c1)) => {
                        assert(vs == seq![v0] + vs2 && c == c0 + c1);
                        assert(vs[0] == v0);
                        lemma_float_free_seq_shift(v0, vs2, 0);
                        lemma_minimal_encoding(s, v0, c0);
                        lemma_minimal_values(s.skip(c0), (n - 1) as nat, vs2, c1);
                        lemma_enc_seq_shift(v0, vs2, 0);
                        assert(spec_encode_seq_from(vs, 0) == spec_encode(v0)
                            + spec_encode_seq_from(vs, 1));
                    },
                }
            },
        }
    }
}

/// Round trip: decoding the encoding of any well-formed value yields the
/// value itself, and reports that exactly the whole encoding was consumed.
pub proof fn lemma_round_trip(v: SpecMsgPack)
    requires
        wf(v),
    ensures
        spec_parse(spec_encode(v)) == Ok::<(SpecMsgPack, int), int>((
            v,
            spec_encode(v).len() as int,
        )),
{
    lemma_parse_encode(v, Seq::empty());
    assert(spec_encode(v) + Seq::<u8>::empty() =~= spec_encode(v));
}


} // verus!
