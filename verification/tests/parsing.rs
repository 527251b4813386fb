use msgpack_simple::parser::parse;
use msgpack_simple::parser::read_16;
use msgpack_simple::parser::read_32;
use msgpack_simple::parser::read_8;
use msgpack_simple::Extension;
use msgpack_simple::MsgPack;

#[test]
fn endian_reader() {
    assert_eq!(read_8(&vec![0x32]), 0x32);
    assert_eq!(read_16(&vec![0x42, 0x58]), 0x4258);
    assert_eq!(read_32(&vec![0x3a, 0x9c, 0x64, 0x82]), 0x3a9c6482);
}

#[test]
fn primitives() {
    let (parsed, length) = parse(&vec![0xc0]).unwrap();
    assert_eq!(length, 1);
    assert!(parsed.is_nil());

    let (parsed, length) = parse(&vec![0xc2]).unwrap();
    assert_eq!(length, 1);
    assert!(parsed.is_boolean());
    assert_eq!(parsed.as_boolean().unwrap(), false);

    let (parsed, length) = parse(&vec![0xc3]).unwrap();
    assert_eq!(length, 1);
    assert!(parsed.is_boolean());
    assert_eq!(parsed.as_boolean().unwrap(), true);
}

#[test]
fn numbers() {
    let (parsed, length) = parse(&vec![0xcb, 0x3f, 0xf6, 0xb8, 0x51, 0xeb, 0x85, 0x1e, 0xb8])
        .unwrap();
    assert_eq!(length, 9);
    assert!(parsed.is_float());
    assert_eq!(f64::from_bits(parsed.as_float().unwrap()), 1.42);
}

#[test]
fn objects() {
    let (parsed, length) = parse(
        &vec![
            0x82, 0xa7, 0x63, 0x6f, 0x6d, 0x70, 0x61, 0x63, 0x74, 0xc3, 0xa6, 0x73, 0x63, 0x68,
            0x65, 0x6d, 0x61, 0x93, 0x01, 0x02, 0xcb, 0x3f, 0xf5, 0x1e, 0xb8, 0x51, 0xeb, 0x85,
            0x1f,
        ],
    )
    .unwrap();

    println!("{} {:?}", length, parsed);
}

#[test]
fn offset_accuracy() {
    // a bin8 tag with no length byte fails right after the tag
    let error = parse(&vec![0xc4]).unwrap_err();
    assert_eq!(error.byte, 1);

    // a bin8 length announcing five missing payload bytes fails after the
    // length field
    let error = parse(&vec![0xc4, 0x05]).unwrap_err();
    assert_eq!(error.byte, 2);
}

#[test]
fn nested_offset_propagation() {
    // an array of one containing a truncated bin8: one byte for entering
    // the array plus the inner failure position
    let error = parse(&vec![0x91, 0xc4]).unwrap_err();
    assert_eq!(error.byte, 2);
}

#[test]
fn reserved_tag() {
    let error = parse(&vec![0xc1]).unwrap_err();
    assert_eq!(error.byte, 0);
    assert!(MsgPack::parse(&vec![0xc1]).is_err());
}

#[test]
fn empty_input() {
    let error = parse(&vec![]).unwrap_err();
    assert_eq!(error.byte, 0);
}

#[test]
fn invalid_utf8() {
    // 0xff can never appear in UTF-8 text; the error points at the payload
    let error = parse(&vec![0xa1, 0xff]).unwrap_err();
    assert_eq!(error.byte, 1);

    let error = parse(&vec![0xd9, 0x01, 0xff]).unwrap_err();
    assert_eq!(error.byte, 2);
}

#[test]
fn map_positional_pairing() {
    // {"a": 1, "b": 2} stays a two-entry list in that order
    let (parsed, length) = parse(&vec![0x82, 0xa1, 0x61, 0x01, 0xa1, 0x62, 0x02]).unwrap();
    assert_eq!(length, 7);
    let entries = parsed.as_map().unwrap();
    assert_eq!(entries.len(), 2);
    assert_eq!(entries[0].key, MsgPack::String("a".to_string()));
    assert_eq!(entries[0].value, MsgPack::Int(1));
    assert_eq!(entries[1].key, MsgPack::String("b".to_string()));
    assert_eq!(entries[1].value, MsgPack::Int(2));
}

#[test]
fn float32_promotion() {
    // 1.0f32
    let (parsed, length) = parse(&vec![0xca, 0x3f, 0x80, 0x00, 0x00]).unwrap();
    assert_eq!(length, 5);
    assert_eq!(f64::from_bits(parsed.as_float().unwrap()), 1.0);

    // -2.5f32
    let bits = (-2.5f32).to_bits().to_be_bytes();
    let (parsed, _) = parse(&vec![0xca, bits[0], bits[1], bits[2], bits[3]]).unwrap();
    assert_eq!(f64::from_bits(parsed.as_float().unwrap()), -2.5);

    // the smallest positive binary32 subnormal widens by value
    let (parsed, _) = parse(&vec![0xca, 0x00, 0x00, 0x00, 0x01]).unwrap();
    assert_eq!(f64::from_bits(parsed.as_float().unwrap()), f32::from_bits(1) as f64);

    // another subnormal, with a high fraction bit set
    let (parsed, _) = parse(&vec![0xca, 0x00, 0x40, 0x00, 0x01]).unwrap();
    assert_eq!(f64::from_bits(parsed.as_float().unwrap()), f32::from_bits(0x0040_0001) as f64);

    // negative zero keeps its sign
    let (parsed, _) = parse(&vec![0xca, 0x80, 0x00, 0x00, 0x00]).unwrap();
    assert_eq!(parsed.as_float().unwrap(), (-0.0f64).to_bits());

    // infinities widen to infinities
    let (parsed, _) = parse(&vec![0xca, 0x7f, 0x80, 0x00, 0x00]).unwrap();
    assert_eq!(f64::from_bits(parsed.as_float().unwrap()), f64::INFINITY);
}

#[test]
fn fixext_parsing() {
    let (parsed, length) = parse(&vec![0xd6, 0x2a, 0x01, 0x02, 0x03, 0x04]).unwrap();
    assert_eq!(length, 6);
    let ext = parsed.as_extension().unwrap();
    assert_eq!(ext, Extension { type_id: 42, value: vec![0x01, 0x02, 0x03, 0x04] });

    // a negative type id round-trips through its two's-complement byte
    let (parsed, _) = parse(&vec![0xd4, 0xff, 0x07]).unwrap();
    let ext = parsed.as_extension().unwrap();
    assert_eq!(ext.type_id, -1);
    assert_eq!(ext.value, vec![0x07]);
}

#[test]
fn integer_widths() {
    let (parsed, _) = parse(&vec![0x7f]).unwrap();
    assert_eq!(parsed, MsgPack::Int(127));

    let (parsed, _) = parse(&vec![0xe0]).unwrap();
    assert_eq!(parsed, MsgPack::Int(-32));

    let (parsed, _) = parse(&vec![0xd0, 0x80]).unwrap();
    assert_eq!(parsed, MsgPack::Int(-128));

    let (parsed, _) = parse(&vec![0xd1, 0x80, 0x00]).unwrap();
    assert_eq!(parsed, MsgPack::Int(-32768));

    let (parsed, _) = parse(&vec![0xd2, 0xff, 0xff, 0xff, 0xff]).unwrap();
    assert_eq!(parsed, MsgPack::Int(-1));

    let (parsed, _) = parse(
        &vec![0xd3, 0x80, 0x00, 0x00, 0x00, 0x00, 0x00, 0x00, 0x00],
    )
    .unwrap();
    assert_eq!(parsed, MsgPack::Int(i64::MIN));

    let (parsed, _) = parse(&vec![0xcc, 0xff]).unwrap();
    assert_eq!(parsed, MsgPack::Uint(255));

    let (parsed, _) = parse(
        &vec![0xcf, 0xff, 0xff, 0xff, 0xff, 0xff, 0xff, 0xff, 0xff],
    )
    .unwrap();
    assert_eq!(parsed, MsgPack::Uint(u64::MAX));
}
