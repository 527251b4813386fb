//! The two failure modes of the codec: a positioned parse error and a
//! typed-accessor conversion error.

use vstd::prelude::*;
use vstd::string::StringExecFns;

use crate::wire::SpecMsgPack;
use crate::MsgPack;

verus! {

/// The character of a single decimal digit.
pub open spec fn spec_digit_char(d: nat) -> char {
    if d == 0 {
        '0'
    } else if d == 1 {
        '1'
    } else if d == 2 {
        '2'
    } else if d == 3 {
        '3'
    } else if d == 4 {
        '4'
    } else if d == 5 {
        '5'
    } else if d == 6 {
        '6'
    } else if d == 7 {
        '7'
    } else if d == 8 {
        '8'
    } else {
        '9'
    }
}

/// The decimal digits of `n`, most significant first.
pub open spec fn spec_decimal(n: nat) -> Seq<char>
    decreases n,
{
    if n < 10 {
        seq![spec_digit_char(n)]
    } else {
        spec_decimal(n / 10) + seq![spec_digit_char(n % 10)]
    }
}

/// A single decimal digit as text.
fn digit_str(d: u64) -> (r: &'static str)
    requires
        d < 10,
    ensures
        r@ == seq![spec_digit_char(d as nat)],
{
    proof {
        reveal_strlit("0");
        reveal_strlit("1");
        reveal_strlit("2");
        reveal_strlit("3");
        reveal_strlit("4");
        reveal_strlit("5");
        reveal_strlit("6");
        reveal_strlit("7");
        reveal_strlit("8");
        reveal_strlit("9");
    }
    let r: &'static str = if d == 0 {
        "0"
    } else if d == 1 {
        "1"
    } else if d == 2 {
        "2"
    } else if d == 3 {
        "3"
    } else if d == 4 {
        "4"
    } else if d == 5 {
        "5"
    } else if d == 6 {
        "6"
    } else if d == 7 {
        "7"
    } else if d == 8 {
        "8"
    } else {
        "9"
    };
    proof {
        assert(r@ =~= seq![spec_digit_char(d as nat)]);
    }
    r
}

/// `n` written in decimal.
fn decimal_string(n: u64) -> (r: String)
    ensures
        r@ == spec_decimal(n as nat),
    decreases n,
{
    if n < 10 {
        String::from_str(digit_str(n))
    } else {
        let mut s = decimal_string(n / 10);
        s.append(digit_str(n % 10));
        s
    }
}

/// The textual label of a value's own kind.
pub open spec fn spec_kind_label(v: SpecMsgPack) -> Seq<char> {
    match v {
        SpecMsgPack::Nil => "nil"@,
        SpecMsgPack::Int(_) => "int"@,
        SpecMsgPack::Uint(_) => "uint"@,
        SpecMsgPack::Float(_) => "float"@,
        SpecMsgPack::Boolean(_) => "boolean"@,
        SpecMsgPack::String(_) => "string"@,
        SpecMsgPack::Binary(_) => "binary"@,
        SpecMsgPack::Array(_) => "array"@,
        SpecMsgPack::Mapping(_) => "map"@,
        SpecMsgPack::Extension(_, _) => "extension"@,
    }
}

/// The textual label of a value's own kind.
fn kind_label(v: &MsgPack) -> (r: &'static str)
    ensures
        r@ == spec_kind_label(v@),
{
    match v {
        MsgPack::Nil => "nil",
        MsgPack::Int(_) => "int",
        MsgPack::Uint(_) => "uint",
        MsgPack::Float(_) => "float",
        MsgPack::Boolean(_) => "boolean",
        MsgPack::String(_) => "string",
        MsgPack::Binary(_) => "binary",
        MsgPack::Array(_) => "array",
        MsgPack::Mapping(_) => "map",
        MsgPack::Extension(_) => "extension",
    }
}

/// The text of a conversion error message.
pub open spec fn spec_conversion_error_text(
    original: SpecMsgPack,
    attempted: Seq<char>,
) -> Seq<char> {
    "MsgPack conversion error: cannot use "@ + spec_kind_label(original) + " as "@ + attempted
}

/// The text of a parse error message.
pub open spec fn spec_parse_error_text(byte: nat) -> Seq<char> {
    "MsgPack parse error at byte "@ + spec_decimal(byte)
}

/// An error that occurred when trying to access a field as a different type.
///
/// The `as_type` functions of [`MsgPack`] can return this error.  It carries
/// the original object, untouched, and a label for the attempted conversion.
#[derive(Debug)]
pub struct ConversionError {
    /// The original object, owned.
    pub original: MsgPack,
    /// A label for the type conversion that was attempted.
    pub attempted: &'static str,
}

impl ConversionError {
    /// Recovers the MsgPack object from the error.
    pub fn recover(self) -> (r: MsgPack)
        ensures
            r == self.original,
    {
        self.original
    }

    /// A human-readable description of the error.
    pub fn message(&self) -> (r: String)
        ensures
            r@ == spec_conversion_error_text(self.original@, self.attempted@),
    {
        let mut s = String::from_str("MsgPack conversion error: cannot use ");
        s.append(kind_label(&self.original));
        s.append(" as ");
        s.append(self.attempted);
        s
    }
}

/// An error that occurred while parsing a binary as MsgPack.
#[derive(Debug)]
pub struct ParseError {
    /// The byte offset where the error was found.
    pub byte: usize,
}

impl ParseError {
    /// A human-readable description of the error.
    pub fn message(&self) -> (r: String)
        ensures
            r@ == spec_parse_error_text(self.byte as nat),
    {
        let mut s = String::from_str("MsgPack parse error at byte ");
        s.append(decimal_string(self.byte as u64).as_str());
        s
    }

    /// Creates another error of the same type with a byte offset.
    pub fn offset(&self, value: usize) -> (r: ParseError)
        requires
            self.byte + value <= usize::MAX,
        ensures
            r.byte == self.byte + value,
    {
        ParseError { byte: self.byte + value }
    }

    /// Takes a result with ParseError as its error type and returns the same
    /// with a byte offset on the error.
    pub fn offset_result<T>(result: Result<T, ParseError>, value: usize) -> (r: Result<
        T,
        ParseError,
    >)
        requires
            result matches Err(e) ==> e.byte + value <= usize::MAX,
        ensures
            result matches Ok(v) ==> r matches Ok(w) && w == v,
            result matches Err(e) ==> r matches Err(f) && f.byte == e.byte + value,
    {
        match result {
            Ok(v) => Ok(v),
            Err(err) => Err(err.offset(value)),
        }
    }
}

} // verus!
