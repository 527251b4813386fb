//! A pure-Rust MessagePack codec for dynamic, schema-less data, with machine
//! checked contracts.
//!
//! Data is abstracted by the [`MsgPack`] enum, which can hold any value
//! encodable with MessagePack: scalars, strings, binary blobs, arrays,
//! ordered key-value maps and typed extension payloads.  [`MsgPack::parse`]
//! decodes a byte slice, [`MsgPack::encode`] produces the shortest encoding
//! of a value, and per-variant accessors (`is_string`, `as_string`, ...)
//! inspect or unwrap a value.
//!
//! The behaviour of the codec is specified against the abstract model in
//! [`wire`]: decoding is exactly [`wire::spec_parse`] and encoding is exactly
//! [`wire::spec_encode`].

use vstd::prelude::*;

mod encoder;
mod error;
pub mod parser;
pub mod theorems;
pub mod wire;

pub use error::ConversionError;
pub use error::ParseError;
use wire::SpecMsgPack;

verus! {

broadcast use vstd::std_specs::vec::group_vec_axioms, vstd::seq::group_seq_axioms;

/// A piece of MessagePack-compatible data.
///
/// Floating-point payloads are carried as their IEEE-754 binary64 bit
/// pattern (`f64::to_bits` / `f64::from_bits`), so that the codec itself is
/// a pure function over integers and byte sequences.
#[derive(Debug, PartialEq)]
pub enum MsgPack {
    /// Empty value.
    Nil,
    /// Signed integer.
    Int(i64),
    /// Unsigned integer.
    Uint(u64),
    /// Floating-point number, as its IEEE-754 binary64 bit pattern.
    Float(u64),
    /// Boolean.
    Boolean(bool),
    /// Unicode-compatible string.
    String(String),
    /// Raw binary value.
    Binary(Vec<u8>),
    /// An array of other MsgPack fields.
    Array(Vec<MsgPack>),
    /// A map of key-value pairs, both sides being MsgPack data fields.
    /// Order is preserved and keys need not be unique.
    Mapping(Vec<MapElement>),
    /// A tuple of an extension type and a raw data value.
    Extension(Extension),
}

/// An element of a MessagePack map.
#[derive(Debug, PartialEq)]
pub struct MapElement {
    pub key: MsgPack,
    pub value: MsgPack,
}

/// An extension field.
#[derive(Debug, PartialEq, Eq, Hash, Clone)]
pub struct Extension {
    /// Type of the extension field. 0-127 are free to set by the
    /// application; MessagePack reserves the negative type ids.
    pub type_id: i8,
    /// Raw binary value of the extension field.
    pub value: Vec<u8>,
}

impl View for MsgPack {
    type V = SpecMsgPack;

    open spec fn view(&self) -> SpecMsgPack
        decreases self, 0int,
    {
        match self {
            MsgPack::Nil => SpecMsgPack::Nil,
            MsgPack::Int(v) => SpecMsgPack::Int(*v),
            MsgPack::Uint(v) => SpecMsgPack::Uint(*v),
            MsgPack::Float(bits) => SpecMsgPack::Float(*bits),
            MsgPack::Boolean(b) => SpecMsgPack::Boolean(*b),
            MsgPack::String(s) => SpecMsgPack::String(s@),
            MsgPack::Binary(b) => SpecMsgPack::Binary(b@),
            MsgPack::Array(items) => SpecMsgPack::Array(deep_seq(items@)),
            MsgPack::Mapping(entries) => SpecMsgPack::Mapping(deep_entries(entries@)),
            MsgPack::Extension(e) => SpecMsgPack::Extension(e.type_id, e.value@),
        }
    }
}

/// The views of the elements of a sequence of values.
pub open spec fn deep_seq(s: Seq<MsgPack>) -> Seq<SpecMsgPack>
    decreases s, 1int,
{
    Seq::new(
        s.len(),
        |i: int|
            if 0 <= i < s.len() {
                s[i]@
            } else {
                SpecMsgPack::Nil
            },
    )
}

/// The views of the key-value pairs of a sequence of map elements.
pub open spec fn deep_entries(s: Seq<MapElement>) -> Seq<(SpecMsgPack, SpecMsgPack)>
    decreases s, 1int,
{
    Seq::new(
        s.len(),
        |i: int|
            if 0 <= i < s.len() {
                (s[i].key@, s[i].value@)
            } else {
                (SpecMsgPack::Nil, SpecMsgPack::Nil)
            },
    )
}

impl Clone for MsgPack {
    /// Deep copy: the copy has the same view as the original.
    #[verifier::loop_isolation(false)]
    fn clone(&self) -> (res: Self)
        ensures
            res@ == self@,
        decreases self,
    {
        match self {
            MsgPack::Nil => MsgPack::Nil,
            MsgPack::Int(v) => MsgPack::Int(*v),
            MsgPack::Uint(v) => MsgPack::Uint(*v),
            MsgPack::Float(bits) => MsgPack::Float(*bits),
            MsgPack::Boolean(b) => MsgPack::Boolean(*b),
            MsgPack::String(s) => MsgPack::String(s.clone()),
            MsgPack::Binary(b) => MsgPack::Binary(vstd::slice::slice_to_vec(b.as_slice())),
            MsgPack::Array(items) => {
                let mut out: Vec<MsgPack> = Vec::new();
                let mut j: usize = 0;
                while j < items.len()
                    invariant
                        j <= items@.len(),
                        out@.len() == j,
                        forall|k: int| 0 <= k < j ==> out@[k]@ == items@[k]@,
                    decreases items@.len() - j,
                {
                    out.push(items[j].clone());
                    j = j + 1;
                }
                proof {
                    assert(deep_seq(out@) =~= deep_seq(items@));
                }
                MsgPack::Array(out)
            },
            MsgPack::Mapping(entries) => {
                let mut out: Vec<MapElement> = Vec::new();
                let mut j: usize = 0;
                while j < entries.len()
                    invariant
                        j <= entries@.len(),
                        out@.len() == j,
                        forall|k: int|
                            0 <= k < j ==> out@[k].key@ == entries@[k].key@ && out@[k].value@
                                == entries@[k].value@,
                    decreases entries@.len() - j,
                {
                    out.push(
                        MapElement {
                            key: entries[j].key.clone(),
                            value: entries[j].value.clone(),
                        },
                    );
                    j = j + 1;
                }
                proof {
                    assert(deep_entries(out@) =~= deep_entries(entries@));
                }
                MsgPack::Mapping(out)
            },
            MsgPack::Extension(e) => MsgPack::Extension(
                Extension {
                    type_id: e.type_id,
                    value: vstd::slice::slice_to_vec(e.value.as_slice()),
                },
            ),
        }
    }
}

impl Clone for MapElement {
    /// Deep copy: both sides of the copy have the same views.
    fn clone(&self) -> (res: Self)
        ensures
            res.key@ == self.key@,
            res.value@ == self.value@,
        decreases self,
    {
        MapElement { key: self.key.clone(), value: self.value.clone() }
    }
}

/// The view of an array value is the sequence of its elements' views.
pub proof fn lemma_array_view(items: Vec<MsgPack>)
    ensures
        MsgPack::Array(items)@ == SpecMsgPack::Array(deep_seq(items@)),
{
}

/// The view of a map value is the sequence of its entries' views.
pub proof fn lemma_mapping_view(entries: Vec<MapElement>)
    ensures
        MsgPack::Mapping(entries)@ == SpecMsgPack::Mapping(deep_entries(entries@)),
{
}

impl MsgPack {
    /// Parses binary data as MessagePack.
    pub fn parse(raw: &[u8]) -> (r: Result<MsgPack, ParseError>)
        ensures
            r matches Ok(v) ==> (wire::spec_parse(raw@) matches Ok(p) && p.0 == v@),
            r matches Err(e) ==> (wire::spec_parse(raw@) matches Err(o) && o == e.byte as int),
    {
        match parser::parse(raw) {
            Ok((result, _)) => Ok(result),
            Err(e) => Err(e),
        }
    }

    /// Checks if the MsgPack is an int variant.
    pub fn is_int(&self) -> (r: bool)
        ensures
            r == (self@ is Int),
    {
        match self {
            MsgPack::Int(_) => true,
            _ => false,
        }
    }

    /// Consumes the MsgPack as int.
    pub fn as_int(self) -> (r: Result<i64, ConversionError>)
        ensures
            self@ matches SpecMsgPack::Int(v) ==> r matches Ok(x) && x == v,
            !(self@ is Int) ==> (r matches Err(e) && e.original == self && e.attempted@
                == "int"@),
    {
        match self {
            MsgPack::Int(value) => Ok(value),
            _ => Err(ConversionError { original: self, attempted: "int" }),
        }
    }

    /// Checks if the MsgPack is a uint variant.
    pub fn is_uint(&self) -> (r: bool)
        ensures
            r == (self@ is Uint),
    {
        match self {
            MsgPack::Uint(_) => true,
            _ => false,
        }
    }

    /// Consumes the MsgPack as uint.
    pub fn as_uint(self) -> (r: Result<u64, ConversionError>)
        ensures
            self@ matches SpecMsgPack::Uint(v) ==> r matches Ok(x) && x == v,
            !(self@ is Uint) ==> (r matches Err(e) && e.original == self && e.attempted@
                == "uint"@),
    {
        match self {
            MsgPack::Uint(value) => Ok(value),
            _ => Err(ConversionError { original: self, attempted: "uint" }),
        }
    }

    /// Checks if the MsgPack is one of the integer variants.
    pub fn is_some_int(&self) -> (r: bool)
        ensures
            r == (self@ is Int || self@ is Uint),
    {
        match self {
            MsgPack::Uint(_) => true,
            MsgPack::Int(_) => true,
            _ => false,
        }
    }

    /// Consumes the MsgPack as an int, even if it is a uint; a uint outside
    /// the signed range wraps around two's-complement.
    pub fn as_some_int(self) -> (r: Result<i64, ConversionError>)
        ensures
            self@ matches SpecMsgPack::Int(v) ==> r matches Ok(x) && x == v,
            self@ matches SpecMsgPack::Uint(u) ==> r matches Ok(x) && x == wire::sign_extend(
                u,
                0x1_0000_0000_0000_0000,
            ),
            !(self@ is Int || self@ is Uint) ==> (r matches Err(e) && e.original == self
                && e.attempted@ == "int"@),
    {
        match self {
            MsgPack::Int(value) => Ok(value),
            MsgPack::Uint(value) => {
                let x: i64 = if value < 0x8000_0000_0000_0000 {
                    value as i64
                } else {
                    ((value - 0x8000_0000_0000_0000) as i64) + i64::MIN
                };
                Ok(x)
            },
            _ => Err(ConversionError { original: self, attempted: "int" }),
        }
    }

    /// Checks if the MsgPack is a float.
    pub fn is_float(&self) -> (r: bool)
        ensures
            r == (self@ is Float),
    {
        match self {
            MsgPack::Float(_) => true,
            _ => false,
        }
    }

    /// Consumes the MsgPack as a float, returned as its IEEE-754 binary64
    /// bit pattern (`f64::from_bits` recovers the number).
    pub fn as_float(self) -> (r: Result<u64, ConversionError>)
        ensures
            self@ matches SpecMsgPack::Float(bits) ==> r matches Ok(x) && x == bits,
            !(self@ is Float) ==> (r matches Err(e) && e.original == self && e.attempted@
                == "float"@),
    {
        match self {
            MsgPack::Float(bits) => Ok(bits),
            _ => Err(ConversionError { original: self, attempted: "float" }),
        }
    }

    /// Checks if the MsgPack is a boolean.
    pub fn is_boolean(&self) -> (r: bool)
        ensures
            r == (self@ is Boolean),
    {
        match self {
            MsgPack::Boolean(_) => true,
            _ => false,
        }
    }

    /// Consumes the MsgPack as a boolean.
    pub fn as_boolean(self) -> (r: Result<bool, ConversionError>)
        ensures
            self@ matches SpecMsgPack::Boolean(v) ==> r matches Ok(x) && x == v,
            !(self@ is Boolean) ==> (r matches Err(e) && e.original == self && e.attempted@
                == "boolean"@),
    {
        match self {
            MsgPack::Boolean(value) => Ok(value),
            _ => Err(ConversionError { original: self, attempted: "boolean" }),
        }
    }

    /// Checks if the MsgPack is a nil.
    pub fn is_nil(&self) -> (r: bool)
        ensures
            r == (self@ is Nil),
    {
        match self {
            MsgPack::Nil => true,
            _ => false,
        }
    }

    /// Checks if the MsgPack is a string.
    pub fn is_string(&self) -> (r: bool)
        ensures
            r == (self@ is String),
    {
        match self {
            MsgPack::String(_) => true,
            _ => false,
        }
    }

    /// Consumes the MsgPack as a string.
    pub fn as_string(self) -> (r: Result<String, ConversionError>)
        ensures
            self@ matches SpecMsgPack::String(chars) ==> r matches Ok(x) && x@ == chars,
            !(self@ is String) ==> (r matches Err(e) && e.original == self && e.attempted@
                == "string"@),
    {
        match self {
            MsgPack::String(value) => Ok(value),
            _ => Err(ConversionError { original: self, attempted: "string" }),
        }
    }

    /// Checks if the MsgPack is a binary.
    pub fn is_binary(&self) -> (r: bool)
        ensures
            r == (self@ is Binary),
    {
        match self {
            MsgPack::Binary(_) => true,
            _ => false,
        }
    }

    /// Consumes the MsgPack as a binary.
    pub fn as_binary(self) -> (r: Result<Vec<u8>, ConversionError>)
        ensures
            self@ matches SpecMsgPack::Binary(bytes) ==> r matches Ok(x) && x@ == bytes,
            !(self@ is Binary) ==> (r matches Err(e) && e.original == self && e.attempted@
                == "binary"@),
    {
        match self {
            MsgPack::Binary(value) => Ok(value),
            _ => Err(ConversionError { original: self, attempted: "binary" }),
        }
    }

    /// Checks if the MsgPack is an array.
    pub fn is_array(&self) -> (r: bool)
        ensures
            r == (self@ is Array),
    {
        match self {
            MsgPack::Array(_) => true,
            _ => false,
        }
    }

    /// Consumes the MsgPack as an array.
    pub fn as_array(self) -> (r: Result<Vec<MsgPack>, ConversionError>)
        ensures
            self@ matches SpecMsgPack::Array(items) ==> r matches Ok(x) && deep_seq(x@) == items,
            !(self@ is Array) ==> (r matches Err(e) && e.original == self && e.attempted@
                == "array"@),
    {
        match self {
            MsgPack::Array(value) => Ok(value),
            _ => Err(ConversionError { original: self, attempted: "array" }),
        }
    }

    /// Checks if the MsgPack is a map.
    pub fn is_map(&self) -> (r: bool)
        ensures
            r == (self@ is Mapping),
    {
        match self {
            MsgPack::Mapping(_) => true,
            _ => false,
        }
    }

    /// Consumes the MsgPack as a map.
    pub fn as_map(self) -> (r: Result<Vec<MapElement>, ConversionError>)
        ensures
            self@ matches SpecMsgPack::Mapping(entries) ==> r matches Ok(x) && deep_entries(x@)
                == entries,
            !(self@ is Mapping) ==> (r matches Err(e) && e.original == self && e.attempted@
                == "map"@),
    {
        match self {
            MsgPack::Mapping(value) => Ok(value),
            _ => Err(ConversionError { original: self, attempted: "map" }),
        }
    }

    /// Checks if the MsgPack is an extension.
    pub fn is_extension(&self) -> (r: bool)
        ensures
            r == (self@ is Extension),
    {
        match self {
            MsgPack::Extension(_) => true,
            _ => false,
        }
    }

    /// Consumes the MsgPack as an extension.
    pub fn as_extension(self) -> (r: Result<Extension, ConversionError>)
        ensures
            self@ matches SpecMsgPack::Extension(t, bytes) ==> (r matches Ok(x) && x.type_id == t
                && x.value@ == bytes),
            !(self@ is Extension) ==> (r matches Err(e) && e.original == self && e.attempted@
                == "extension"@),
    {
        match self {
            MsgPack::Extension(value) => Ok(value),
            _ => Err(ConversionError { original: self, attempted: "extension" }),
        }
    }
}

} // verus!
