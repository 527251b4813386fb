use msgpack_simple::parser;
use msgpack_simple::Extension;
use msgpack_simple::MapElement;
use msgpack_simple::MsgPack;

#[test]
fn decode_from_json() {
    let data = &vec![
        0x82, 0xa7, 0x63, 0x6f, 0x6d, 0x70, 0x61, 0x63, 0x74, 0xc3, 0xa6, 0x73, 0x63, 0x68, 0x65,
        0x6d, 0x61, 0x93, 0x01, 0x02, 0xcb, 0x3f, 0xf5, 0x1e, 0xb8, 0x51, 0xeb, 0x85, 0x1f,
    ];

    let parsed = MsgPack::parse(data).unwrap();

    assert!(parsed.is_map());
    let map = parsed.as_map().unwrap();

    assert_eq!(map.len(), 2);

    let mut map = map.into_iter();
    let first = map.next().unwrap();
    let second = map.next().unwrap();

    assert!(first.key.is_string());
    assert!(first.value.is_boolean());

    assert!(second.key.is_string());
    assert!(second.value.is_array());

    assert_eq!(first.key.as_string().unwrap(), "compact");
    assert_eq!(first.value.as_boolean().unwrap(), true);

    assert_eq!(second.key.as_string().unwrap(), "schema");

    let mut array = second.value.as_array().unwrap().into_iter();

    let first = array.next().unwrap();
    let second = array.next().unwrap();
    let third = array.next().unwrap();

    assert!(array.next().is_none());

    assert!(first.is_some_int());
    assert_eq!(first.as_some_int().unwrap(), 1);

    assert!(second.is_some_int());
    assert_eq!(second.as_some_int().unwrap(), 2);

    assert!(third.is_float());
    assert_eq!(f64::from_bits(third.as_float().unwrap()), 1.32);
}

#[test]
fn encode() {
    let message = MsgPack::Mapping(vec![
        MapElement {
            key: MsgPack::String(String::from("hello")),
            value: MsgPack::Int(0x424242),
        },
        MapElement {
            key: MsgPack::String(String::from("world")),
            value: MsgPack::Array(vec![
                MsgPack::Boolean(true),
                MsgPack::Nil,
                MsgPack::Binary(vec![0x42, 0xff]),
                MsgPack::Extension(Extension { type_id: 2, value: vec![0x32, 0x4a, 0x67, 0x11] }),
            ]),
        },
    ]);

    let encoded = message.encode();
    let decoded = MsgPack::parse(&encoded).unwrap();

    assert_eq!(message, decoded);
}

#[test]
fn encode_string() {
    let message = MsgPack::String("Hello Rust".to_string());
    let encoded = message.encode();

    let data = vec![0xaa, 0x48, 0x65, 0x6c, 0x6c, 0x6f, 0x20, 0x52, 0x75, 0x73, 0x74];
    assert_eq!(encoded, data);

    let (decoded, length) = parser::parse(&data).unwrap();
    assert_eq!(length, 11);
    assert_eq!(decoded.as_string().unwrap(), "Hello Rust".to_string());
}

#[test]
fn minimal_int_encoding() {
    assert_eq!(MsgPack::Int(42).encode(), vec![0x2a]);
    assert_eq!(MsgPack::Int(-1).encode(), vec![0xff]);
    assert_eq!(MsgPack::Int(127).encode(), vec![0x7f]);
    assert_eq!(MsgPack::Int(-32).encode(), vec![0xe0]);
    assert_eq!(MsgPack::Int(128).encode(), vec![0xd1, 0x00, 0x80]);
    assert_eq!(MsgPack::Int(-33).encode(), vec![0xd0, 0xdf]);
    assert_eq!(MsgPack::Int(-129).encode(), vec![0xd1, 0xff, 0x7f]);
    assert_eq!(MsgPack::Int(0x8000).encode(), vec![0xd2, 0x00, 0x00, 0x80, 0x00]);
    assert_eq!(
        MsgPack::Int(i64::MIN).encode(),
        vec![0xd3, 0x80, 0x00, 0x00, 0x00, 0x00, 0x00, 0x00, 0x00]
    );
}

#[test]
fn minimal_uint_encoding() {
    // a uint never becomes a fixint, keeping the decoded type unsigned
    assert_eq!(MsgPack::Uint(42).encode(), vec![0xcc, 0x2a]);
    assert_eq!(MsgPack::Uint(255).encode(), vec![0xcc, 0xff]);
    assert_eq!(MsgPack::Uint(256).encode(), vec![0xcd, 0x01, 0x00]);
    assert_eq!(MsgPack::Uint(0x1_0000).encode(), vec![0xce, 0x00, 0x01, 0x00, 0x00]);
    assert_eq!(
        MsgPack::Uint(u64::MAX).encode(),
        vec![0xcf, 0xff, 0xff, 0xff, 0xff, 0xff, 0xff, 0xff, 0xff]
    );
}

#[test]
fn float_always_wide() {
    // floats always take the 9-byte binary64 form
    let message = MsgPack::Float((1.5f64).to_bits());
    assert_eq!(message.encode(), vec![0xcb, 0x3f, 0xf8, 0x00, 0x00, 0x00, 0x00, 0x00, 0x00]);
}

#[test]
fn extension_fixed_size_selection() {
    // exactly four payload bytes select the fixext4 tag, not ext8
    let message = MsgPack::Extension(Extension { type_id: 5, value: vec![1, 2, 3, 4] });
    assert_eq!(message.encode(), vec![0xd6, 0x05, 0x01, 0x02, 0x03, 0x04]);

    // three payload bytes fall back to ext8
    let message = MsgPack::Extension(Extension { type_id: 5, value: vec![1, 2, 3] });
    assert_eq!(message.encode(), vec![0xc7, 0x03, 0x05, 0x01, 0x02, 0x03]);
}

#[test]
fn round_trip_nested() {
    let message = MsgPack::Array(vec![
        MsgPack::Nil,
        MsgPack::Boolean(false),
        MsgPack::Int(-1000),
        MsgPack::Uint(1000),
        MsgPack::Float((0.25f64).to_bits()),
        MsgPack::String("héllo wörld".to_string()),
        MsgPack::Binary(vec![0u8; 300]),
        MsgPack::Mapping(vec![MapElement {
            key: MsgPack::Array(vec![MsgPack::Int(1)]),
            value: MsgPack::Extension(Extension { type_id: -7, value: vec![9u8; 16] }),
        }]),
    ]);

    let encoded = message.encode();
    let (decoded, length) = parser::parse(&encoded).unwrap();
    assert_eq!(length, encoded.len());
    assert_eq!(message, decoded);
}

#[test]
fn round_trip_wide_collections() {
    // sixteen elements need the array 16 / map 16 headers
    let items: Vec<MsgPack> = (0..16).map(|i| MsgPack::Int(i)).collect();
    let message = MsgPack::Array(items);
    let encoded = message.encode();
    assert_eq!(encoded[0], 0xdc);
    let (decoded, length) = parser::parse(&encoded).unwrap();
    assert_eq!(length, encoded.len());
    assert_eq!(message, decoded);

    let entries: Vec<MapElement> = (0..16)
        .map(|i| MapElement { key: MsgPack::Int(i), value: MsgPack::Boolean(i % 2 == 0) })
        .collect();
    let message = MsgPack::Mapping(entries);
    let encoded = message.encode();
    assert_eq!(encoded[0], 0xde);
    let (decoded, length) = parser::parse(&encoded).unwrap();
    assert_eq!(length, encoded.len());
    assert_eq!(message, decoded);

    // a string of forty bytes needs the str 8 header
    let message = MsgPack::String("0123456789012345678901234567890123456789".to_string());
    let encoded = message.encode();
    assert_eq!(encoded[0], 0xd9);
    let (decoded, length) = parser::parse(&encoded).unwrap();
    assert_eq!(length, encoded.len());
    assert_eq!(message, decoded);

    // three hundred bytes need the bin 16 header
    let message = MsgPack::Binary(vec![7u8; 300]);
    let encoded = message.encode();
    assert_eq!(encoded[0], 0xc5);
    let (decoded, length) = parser::parse(&encoded).unwrap();
    assert_eq!(length, encoded.len());
    assert_eq!(message, decoded);

    // three hundred extension bytes need the ext 16 header
    let message = MsgPack::Extension(Extension { type_id: 1, value: vec![7u8; 300] });
    let encoded = message.encode();
    assert_eq!(encoded[0], 0xc8);
    let (decoded, length) = parser::parse(&encoded).unwrap();
    assert_eq!(length, encoded.len());
    assert_eq!(message, decoded);
}

#[test]
fn type_accessors() {
    let value = MsgPack::String("x".to_string());
    assert!(value.is_string());
    assert!(!value.is_int());

    let error = value.as_int().unwrap_err();
    assert_eq!(error.attempted, "int");
    let recovered = error.recover();
    assert_eq!(recovered, MsgPack::String("x".to_string()));

    assert_eq!(MsgPack::Int(42).as_some_int().unwrap(), 42);
    assert_eq!(MsgPack::Uint(42).as_some_int().unwrap(), 42);
    assert_eq!(MsgPack::Uint(u64::MAX).as_some_int().unwrap(), -1);
    assert!(MsgPack::Nil.is_nil());
    assert!(MsgPack::Uint(1).is_some_int());
    assert!(!MsgPack::Float(0).is_some_int());
}

#[test]
fn clone_deep() {
    let message = MsgPack::Mapping(vec![MapElement {
        key: MsgPack::String("k".to_string()),
        value: MsgPack::Array(vec![
            MsgPack::Binary(vec![1, 2]),
            MsgPack::Extension(Extension { type_id: 3, value: vec![4] }),
            MsgPack::Float((2.5f64).to_bits()),
        ]),
    }]);
    let copy = message.clone();
    assert_eq!(message, copy);
    assert_eq!(copy.encode(), message.encode());
}
