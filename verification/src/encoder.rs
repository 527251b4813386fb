//! The encoder: produces the shortest MessagePack encoding of a value.
//!
//! [`MsgPack::encode`] is total and its output is exactly
//! [`spec_encode`](crate::wire::spec_encode) of the value's view.

use vstd::prelude::*;

use crate::wire::SpecMsgPack;
use crate::wire::be_bytes2;
use crate::wire::be_bytes4;
use crate::wire::be_bytes8;
use crate::wire::ext_type_byte;
use crate::wire::spec_encode;
use crate::wire::spec_encode_entries_from;
use crate::wire::spec_encode_int;
use crate::wire::spec_encode_seq_from;
use crate::wire::spec_encode_uint;
use crate::wire::twos_complement;
use crate::MsgPack;
use crate::deep_entries;
use crate::deep_seq;

verus! {

broadcast use vstd::std_specs::vec::group_vec_axioms, vstd::seq::group_seq_axioms;

/// A byte masked out of a word is at most 0xff.
proof fn lemma_byte_mask(x: u64)
    ensures
        x & 0xff <= 0xff,
{
    assert(x & 0xff <= 0xff) by (bit_vector);
}

/// A byte shifted down and masked out of a word is at most 0xff.
proof fn lemma_shift_byte_mask(x: u64, k: u64)
    ensures
        (x >> k) & 0xff <= 0xff,
{
    assert((x >> k) & 0xff <= 0xff) by (bit_vector);
}

/// The four big-endian bytes of a word depend on its low 32 bits alone.
proof fn lemma_be_bytes4_mod(x: u64)
    ensures
        be_bytes4(x) == be_bytes4((x % 0x1_0000_0000) as u64),
{
    let y = (x % 0x1_0000_0000) as u64;
    assert((x >> 24) & 0xff == (y >> 24) & 0xff && (x >> 16) & 0xff == (y >> 16) & 0xff && (x
        >> 8) & 0xff == (y >> 8) & 0xff && x & 0xff == y & 0xff) by (bit_vector)
        requires
            y == x % 0x1_0000_0000,
    ;
    assert(be_bytes4(x) =~= be_bytes4(y));
}

/// Appends the low 16 bits of `x`, big-endian.
fn push_be2(out: &mut Vec<u8>, x: u64)
    ensures
        final(out)@ == old(out)@ + be_bytes2(x),
{
    proof {
        lemma_shift_byte_mask(x, 8);
        lemma_byte_mask(x);
    }
    out.push(((x >> 8) & 0xff) as u8);
    out.push((x & 0xff) as u8);
    proof {
        assert(out@ =~= old(out)@ + be_bytes2(x));
    }
}

/// Appends the low 32 bits of `x`, big-endian.
fn push_be4(out: &mut Vec<u8>, x: u64)
    ensures
        final(out)@ == old(out)@ + be_bytes4(x),
{
    proof {
        lemma_shift_byte_mask(x, 24);
        lemma_shift_byte_mask(x, 16);
        lemma_shift_byte_mask(x, 8);
        lemma_byte_mask(x);
    }
    out.push(((x >> 24) & 0xff) as u8);
    out.push(((x >> 16) & 0xff) as u8);
    out.push(((x >> 8) & 0xff) as u8);
    out.push((x & 0xff) as u8);
    proof {
        assert(out@ =~= old(out)@ + be_bytes4(x));
    }
}

/// Appends all 64 bits of `x`, big-endian.
fn push_be8(out: &mut Vec<u8>, x: u64)
    ensures
        final(out)@ == old(out)@ + be_bytes8(x),
{
    proof {
        lemma_shift_byte_mask(x, 56);
        lemma_shift_byte_mask(x, 48);
        lemma_shift_byte_mask(x, 40);
        lemma_shift_byte_mask(x, 32);
        lemma_shift_byte_mask(x, 24);
        lemma_shift_byte_mask(x, 16);
        lemma_shift_byte_mask(x, 8);
        lemma_byte_mask(x);
    }
    out.push(((x >> 56) & 0xff) as u8);
    out.push(((x >> 48) & 0xff) as u8);
    out.push(((x >> 40) & 0xff) as u8);
    out.push(((x >> 32) & 0xff) as u8);
    out.push(((x >> 24) & 0xff) as u8);
    out.push(((x >> 16) & 0xff) as u8);
    out.push(((x >> 8) & 0xff) as u8);
    out.push((x & 0xff) as u8);
    proof {
        assert(out@ =~= old(out)@ + be_bytes8(x));
    }
}

impl MsgPack {
    /// Encodes a MsgPack enum into binary format, always choosing the
    /// shortest tag that can represent the value.
    #[verifier::loop_isolation(false)]
    pub fn encode(&self) -> (r: Vec<u8>)
        ensures
            r@ == spec_encode(self@),
        decreases self, 0int,
    {
        match self {
            MsgPack::Nil => {
                let mut result: Vec<u8> = Vec::new();
                result.push(0xc0);
                proof {
                    assert(result@ =~= spec_encode(self@));
                }
                result
            },
            MsgPack::Boolean(value) => {
                let mut result: Vec<u8> = Vec::new();
                result.push(if *value {
                    0xc3
                } else {
                    0xc2
                });
                proof {
                    assert(result@ =~= spec_encode(self@));
                }
                result
            },
            MsgPack::Int(value) => {
                let v = *value;
                let mut result: Vec<u8> = Vec::new();
                if v >= 0 && v <= 127 {
                    result.push(v as u8);
                } else if v >= -32 && v < 0 {
                    result.push((v + 256) as u8);
                } else if v >= -128 && v < -32 {
                    let t: u64 = (v + 0x100) as u64;
                    proof {
                        lemma_byte_mask(t);
                    }
                    result.push(0xd0);
                    result.push((t & 0xff) as u8);
                } else if v >= -0x8000 && v < 0x8000 {
                    let t: u64 = if v >= 0 {
                        v as u64
                    } else {
                        (v + 0x1_0000) as u64
                    };
                    result.push(0xd1);
                    push_be2(&mut result, t);
                } else if v >= -0x8000_0000 && v < 0x8000_0000 {
                    let t: u64 = if v >= 0 {
                        v as u64
                    } else {
                        (v + 0x1_0000_0000) as u64
                    };
                    result.push(0xd2);
                    push_be4(&mut result, t);
                } else {
                    let t: u64 = if v >= 0 {
                        v as u64
                    } else {
                        ((v - i64::MIN) as u64) + 0x8000_0000_0000_0000
                    };
                    result.push(0xd3);
                    push_be8(&mut result, t);
                }
                proof {
                    assert(result@ =~= spec_encode_int(v));
                }
                result
            },
            MsgPack::Uint(value) => {
                let v = *value;
                let mut result: Vec<u8> = Vec::new();
                if v <= 0xff {
                    proof {
                        lemma_byte_mask(v);
                    }
                    result.push(0xcc);
                    result.push((v & 0xff) as u8);
                } else if v <= 0xffff {
                    result.push(0xcd);
                    push_be2(&mut result, v);
                } else if v <= 0xffff_ffff {
                    result.push(0xce);
                    push_be4(&mut result, v);
                } else {
                    result.push(0xcf);
                    push_be8(&mut result, v);
                }
                proof {
                    assert(result@ =~= spec_encode_uint(v));
                }
                result
            },
            MsgPack::Float(bits) => {
                // always the 9-byte binary64 form, to avoid precision loss
                let mut result: Vec<u8> = Vec::new();
                result.push(0xcb);
                push_be8(&mut result, *bits);
                proof {
                    assert(result@ =~= spec_encode(self@));
                }
                result
            },
            MsgPack::String(value) => {
                let bytes = value.as_str().as_bytes();
                let length = bytes.len();
                let mut result: Vec<u8> = Vec::new();
                if length < 32 {
                    result.push((0xa0 + length) as u8);
                } else if length <= 0xff {
                    result.push(0xd9);
                    result.push(length as u8);
                } else if length <= 0xffff {
                    result.push(0xda);
                    push_be2(&mut result, length as u64);
                } else {
                    result.push(0xdb);
                    proof {
                        lemma_be_bytes4_mod(length as u64);
                    }
                    push_be4(&mut result, length as u64);
                }
                result.extend_from_slice(bytes);
                proof {
                    assert(result@ =~= spec_encode(self@));
                }
                result
            },
            MsgPack::Binary(value) => {
                let length = value.len();
                let mut result: Vec<u8> = Vec::new();
                if length <= 0xff {
                    result.push(0xc4);
                    result.push(length as u8);
                } else if length <= 0xffff {
                    result.push(0xc5);
                    push_be2(&mut result, length as u64);
                } else {
                    result.push(0xc6);
                    proof {
                        lemma_be_bytes4_mod(length as u64);
                    }
                    push_be4(&mut result, length as u64);
                }
                result.extend_from_slice(value.as_slice());
                proof {
                    assert(result@ =~= spec_encode(self@));
                }
                result
            },
            MsgPack::Extension(extension) => {
                let length = extension.value.len();
                let mut result: Vec<u8> = Vec::new();
                if length == 1 {
                    result.push(0xd4);
                } else if length == 2 {
                    result.push(0xd5);
                } else if length == 4 {
                    result.push(0xd6);
                } else if length == 8 {
                    result.push(0xd7);
                } else if length == 16 {
                    result.push(0xd8);
                } else if length <= 0xff {
                    result.push(0xc7);
                    result.push(length as u8);
                } else if length <= 0xffff {
                    result.push(0xc8);
                    push_be2(&mut result, length as u64);
                } else {
                    result.push(0xc9);
                    proof {
                        lemma_be_bytes4_mod(length as u64);
                    }
                    push_be4(&mut result, length as u64);
                }
                let type_byte: u8 = if extension.type_id >= 0 {
                    extension.type_id as u8
                } else {
                    ((extension.type_id as i16) + 256) as u8
                };
                result.push(type_byte);
                result.extend_from_slice(extension.value.as_slice());
                proof {
                    assert(type_byte == ext_type_byte(extension.type_id));
                    assert(result@ =~= spec_encode(self@));
                }
                result
            },
            MsgPack::Array(value) => {
                let length = value.len();
                let mut result: Vec<u8> = Vec::new();
                if length < 16 {
                    result.push((0x90 + length) as u8);
                } else if length <= 0xffff {
                    result.push(0xdc);
                    push_be2(&mut result, length as u64);
                } else {
                    result.push(0xdd);
                    proof {
                        lemma_be_bytes4_mod(length as u64);
                    }
                    push_be4(&mut result, length as u64);
                }
                let ghost header = result@;
                let ghost ds = deep_seq(value@);
                let mut j: usize = 0;
                while j < length
                    invariant
                        j <= length,
                        length == value@.len(),
                        ds == deep_seq(value@),
                        result@ + spec_encode_seq_from(ds, j as nat) == header
                            + spec_encode_seq_from(ds, 0),
                    decreases length - j,
                {
                    let ghost prev = result@;
                    let mut item = value[j].encode();
                    result.append(&mut item);
                    proof {
                        assert(ds[j as int] == value@[j as int]@);
                        assert(result@ + spec_encode_seq_from(ds, (j + 1) as nat) =~= prev
                            + spec_encode_seq_from(ds, j as nat));
                    }
                    j = j + 1;
                }
                proof {
                    assert(result@ + Seq::<u8>::empty() =~= result@);
                    assert(spec_encode_seq_from(ds, length as nat) =~= Seq::<u8>::empty());
                    assert(result@ =~= header + spec_encode_seq_from(ds, 0));
                    assert(result@ =~= spec_encode(self@));
                }
                result
            },
            MsgPack::Mapping(value) => {
                let length = value.len();
                let mut result: Vec<u8> = Vec::new();
                if length < 16 {
                    result.push((0x80 + length) as u8);
                } else if length <= 0xffff {
                    result.push(0xde);
                    push_be2(&mut result, length as u64);
                } else {
                    result.push(0xdf);
                    proof {
                        lemma_be_bytes4_mod(length as u64);
                    }
                    push_be4(&mut result, length as u64);
                }
                let ghost header = result@;
                let ghost es = deep_entries(value@);
                let mut j: usize = 0;
                while j < length
                    invariant
                        j <= length,
                        length == value@.len(),
                        es == deep_entries(value@),
                        result@ + spec_encode_entries_from(es, j as nat) == header
                            + spec_encode_entries_from(es, 0),
                    decreases length - j,
                {
                    let ghost prev = result@;
                    let mut key_bytes = value[j].key.encode();
                    result.append(&mut key_bytes);
                    let mut value_bytes = value[j].value.encode();
                    result.append(&mut value_bytes);
                    proof {
                        assert(es[j as int] == (value@[j as int].key@, value@[j as int].value@));
                        assert(result@ + spec_encode_entries_from(es, (j + 1) as nat) =~= prev
                            + spec_encode_entries_from(es, j as nat));
                    }
                    j = j + 1;
                }
                proof {
                    assert(spec_encode_entries_from(es, length as nat) =~= Seq::<u8>::empty());
                    assert(result@ =~= header + spec_encode_entries_from(es, 0));
                    assert(result@ =~= spec_encode(self@));
                }
                result
            },
        }
    }
}

} // verus!
