use msgpack_simple::ConversionError;
use msgpack_simple::MsgPack;
use msgpack_simple::ParseError;

#[test]
fn conversion_error() {
    let error = ConversionError { original: MsgPack::Float((4.2f64).to_bits()), attempted: "int" };
    let error_message = error.message();
    assert_eq!(error_message, "MsgPack conversion error: cannot use float as int");

    let recovered = error.recover();
    assert!(recovered.is_float());
    assert_eq!(f64::from_bits(recovered.as_float().unwrap()), 4.2);
}

#[test]
fn parse_error() {
    let error = ParseError { byte: 42 };
    let error_message = error.message();
    assert_eq!(error_message, "MsgPack parse error at byte 42");
}

#[test]
fn parse_error_offset() {
    let error = ParseError { byte: 5 };
    let other = error.offset(3);
    assert_eq!(other.byte, 8);

    let result: Result<(), ParseError> = Err(ParseError { byte: 39 });
    let other = ParseError::offset_result(result, 3);
    let error = other.unwrap_err();
    assert_eq!(error.byte, 42);
}

#[test]
fn conversion_error_labels() {
    let e = MsgPack::Nil.as_boolean().unwrap_err();
    assert_eq!(e.message(), "MsgPack conversion error: cannot use nil as boolean");

    let e = MsgPack::Boolean(true).as_string().unwrap_err();
    assert_eq!(e.message(), "MsgPack conversion error: cannot use boolean as string");

    let e = MsgPack::Binary(vec![1]).as_array().unwrap_err();
    assert_eq!(e.message(), "MsgPack conversion error: cannot use binary as array");

    let e = MsgPack::Array(vec![]).as_map().unwrap_err();
    assert_eq!(e.message(), "MsgPack conversion error: cannot use array as map");

    let e = MsgPack::Mapping(vec![]).as_uint().unwrap_err();
    assert_eq!(e.message(), "MsgPack conversion error: cannot use map as uint");

    let e = MsgPack::String("x".to_string()).as_extension().unwrap_err();
    assert_eq!(e.message(), "MsgPack conversion error: cannot use string as extension");

    let e = MsgPack::Uint(3).as_binary().unwrap_err();
    assert_eq!(e.message(), "MsgPack conversion error: cannot use uint as binary");

    let e = MsgPack::Int(3).as_float().unwrap_err();
    assert_eq!(e.message(), "MsgPack conversion error: cannot use int as float");
}
