use chainpack::de::Deserializer;
use chainpack::ser::Serializer;
use chainpack::token::Token;
use chainpack::types::{CP_BLOB, CP_DOUBLE, CP_INT, CP_LIST, CP_MAP, CP_NULL, CP_STRING, CP_TERM, CP_UINT};

fn read_one(buffer: &[u8]) -> Token {
    let mut de = Deserializer::from_reader(buffer);
    let t = de.deserialize_any().unwrap();
    assert!(de.is_empty());
    t
}

#[test]
fn test_bool() {
    let mut serializer = Serializer::new(Vec::new());
    serializer.serialize_bool(true);
    let buffer = serializer.into_inner();
    assert_eq!(buffer, vec![0xFE]);
    assert_eq!(read_one(&buffer), Token::Bool(true));
}

#[test]
fn test_i64() {
    let mut serializer = Serializer::new(Vec::new());
    serializer.serialize_i64(1234567890).unwrap();
    let buffer = serializer.into_inner();
    assert_eq!(buffer, vec![CP_INT, 0xF0, 0x49, 0x96, 0x02, 0xD2]);
    assert_eq!(read_one(&buffer), Token::Int(1234567890));
}

#[test]
fn test_u64() {
    let mut serializer = Serializer::new(Vec::new());
    serializer.serialize_u64(1234567890);
    let buffer = serializer.into_inner();
    assert_eq!(buffer, vec![CP_UINT, 0xF0, 0x49, 0x96, 0x02, 0xD2]);
    assert_eq!(read_one(&buffer), Token::UInt(1234567890));
}

#[test]
fn test_str() {
    let mut serializer = Serializer::new(Vec::new());
    serializer.serialize_str("hello");
    let buffer = serializer.into_inner();
    assert_eq!(buffer, vec![CP_STRING, 5, b'h', b'e', b'l', b'l', b'o']);
    assert_eq!(read_one(&buffer), Token::String("hello".to_string()));
}

#[test]
fn test_f32() {
    // The wire carries every float as an eight-byte binary64.
    let value = 123.456_f32;
    let bits = (value as f64).to_bits();
    let mut serializer = Serializer::new(Vec::new());
    serializer.serialize_f64_bits(bits);
    let buffer = serializer.into_inner();
    let mut expected = vec![CP_DOUBLE];
    expected.extend_from_slice(&(value as f64).to_le_bytes());
    assert_eq!(buffer, expected);
    match read_one(&buffer) {
        Token::Double(b) => assert_eq!(f64::from_bits(b) as f32, 123.456_f32),
        other => panic!("unexpected token {:?}", other),
    }
}

#[test]
fn test_bytes() {
    let mut serializer = Serializer::new(Vec::new());
    serializer.serialize_bytes(&[1, 2, 3, 4, 5]);
    let buffer = serializer.into_inner();
    assert_eq!(buffer, vec![CP_BLOB, 5, 1, 2, 3, 4, 5]);
    assert_eq!(read_one(&buffer), Token::Blob(vec![1, 2, 3, 4, 5]));
}

#[test]
fn test_option() {
    let mut serializer = Serializer::new(Vec::new());
    serializer.serialize_i64(123).unwrap();
    let buffer = serializer.into_inner();
    assert_eq!(buffer, vec![CP_INT, 0x80, 0x7b]);
    let mut de = Deserializer::from_reader(&buffer[..]);
    assert_eq!(de.deserialize_option(), Ok(true));
    assert_eq!(de.deserialize_any(), Ok(Token::Int(123)));

    let mut serializer = Serializer::new(Vec::new());
    serializer.serialize_none();
    let buffer = serializer.into_inner();
    assert_eq!(buffer, vec![CP_NULL]);
    let mut de = Deserializer::from_reader(&buffer[..]);
    assert_eq!(de.deserialize_option(), Ok(false));
    assert!(de.is_empty());
}

#[test]
fn test_unit() {
    let mut serializer = Serializer::new(Vec::new());
    serializer.serialize_unit();
    let buffer = serializer.into_inner();
    assert_eq!(buffer, vec![CP_NULL]);
    assert_eq!(read_one(&buffer), Token::Null);
}

#[test]
fn test_seq() {
    let mut serializer = Serializer::new(Vec::new());
    serializer.serialize_seq();
    serializer.serialize_i64(1).unwrap();
    serializer.serialize_i64(2).unwrap();
    serializer.serialize_i64(3).unwrap();
    serializer.end();
    let buffer = serializer.into_inner();
    assert_eq!(buffer, vec![CP_LIST, 0x41, 0x42, 0x43, CP_TERM]);

    let mut de = Deserializer::from_reader(&buffer[..]);
    assert_eq!(de.deserialize_any(), Ok(Token::List));
    let mut items = Vec::new();
    while de.more_elements().unwrap() {
        match de.deserialize_any().unwrap() {
            Token::Int(v) => items.push(v),
            other => panic!("unexpected token {:?}", other),
        }
    }
    assert_eq!(items, vec![1, 2, 3]);
    assert!(de.is_empty());
}

#[test]
fn test_map() {
    let mut serializer = Serializer::new(Vec::new());
    serializer.serialize_map();
    serializer.serialize_str("a");
    serializer.serialize_i64(1).unwrap();
    serializer.serialize_str("b");
    serializer.serialize_i64(2).unwrap();
    serializer.end();
    let buffer = serializer.into_inner();
    assert_eq!(buffer, vec![CP_MAP, CP_STRING, 1, b'a', 0x41, CP_STRING, 1, b'b', 0x42, CP_TERM]);

    let mut de = Deserializer::from_reader(&buffer[..]);
    assert_eq!(de.deserialize_any(), Ok(Token::StrMap));
    let mut value = std::collections::HashMap::new();
    while de.more_elements().unwrap() {
        let key = match de.deserialize_any().unwrap() {
            Token::String(s) => s,
            other => panic!("unexpected key {:?}", other),
        };
        let v = match de.deserialize_any().unwrap() {
            Token::Int(v) => v as i32,
            other => panic!("unexpected value {:?}", other),
        };
        value.insert(key, v);
    }
    let mut expected = std::collections::HashMap::new();
    expected.insert("a".to_string(), 1);
    expected.insert("b".to_string(), 2);
    assert_eq!(value, expected);
}

#[test]
fn test_struct() {
    let tokens = vec![
        Token::StrMap,
        Token::String("a".to_string()),
        Token::Int(1),
        Token::String("b".to_string()),
        Token::String("hello".to_string()),
        Token::End,
    ];
    let buffer = chainpack::ser::to_vec(&tokens).unwrap();
    assert_eq!(
        buffer,
        vec![
            CP_MAP, CP_STRING, 1, b'a', 0x41, CP_STRING, 1, b'b', CP_STRING, 5, b'h', b'e', b'l', b'l', b'o', CP_TERM
        ]
    );
    assert_eq!(chainpack::de::from_slice(&buffer), Ok(tokens));
}

#[test]
fn test_uint_examples() {
    let test_cases = vec![
        (2u64, vec![0x02]),
        (0x10u64, vec![0x10]),
        (127u64, vec![CP_UINT, 0b01111111]),
        (0x80u64, vec![CP_UINT, 0b10000000, 0b10000000]),
        (0x200u64, vec![CP_UINT, 0b10000010, 0b00000000]),
        (0x1000u64, vec![CP_UINT, 0b10010000, 0b00000000]),
        (0x8000u64, vec![CP_UINT, 0xC0, 0x80, 0x00]),
        (0x100000u64, vec![CP_UINT, 0b11010000, 0x00, 0x00]),
        (0x800000u64, vec![CP_UINT, 0xE0, 0x80, 0x00, 0x00]),
        (0x2000000u64, vec![CP_UINT, 0xE2, 0x00, 0x00, 0x00]),
        (0x10000000u64, vec![CP_UINT, 0b11110000, 0b00010000, 0x00, 0x00, 0x00]),
        (0x10_0000_0000u64, vec![CP_UINT, 0b11110001, 0b00010000, 0x00, 0x00, 0x00, 0x00]),
        (0x1000_0000_0000u64, vec![ CP_UINT, 0b11110010, 0b00010000, 0x00, 0x00, 0x00, 0x00, 0x00]),
        (0x8000_0000_0000u64, vec![ CP_UINT, 0b11110010, 0b10000000, 0x00, 0x00, 0x00, 0x00, 0x00]),
        (0x10_0000_0000_0000u64, vec![ CP_UINT, 0b11110011, 0b00010000, 0x00, 0x00, 0x00, 0x00, 0x00, 0x00]),
    ];

    for (value, expected) in test_cases {
        println!("value: 0x{value:x}, expected: {expected:x?}");
        let mut serializer = Serializer::new(Vec::new());
        serializer.serialize_u64(value);
        let buffer = serializer.into_inner();
        assert_eq!(buffer, expected);
        assert_eq!(read_one(&buffer), Token::UInt(value));
    }
}

#[test]
fn test_int_examples() {
    let test_cases = vec![
        (-64_i64, vec![CP_INT, 0b10100000, 0b01000000]),
        (4, vec![0b01000100]),
        (16_i64, vec![0b01010000]),
        (64_i64, vec![CP_INT, 0b10000000, 0b01000000]),
        (1024_i64, vec![CP_INT, 0b10000100, 0b00000000]),
        (4096_i64, vec![CP_INT, 0b10010000, 0b00000000]),
        (16384_i64, vec![CP_INT, 0b11000000, 0b01000000, 0b00000000]),
        (262144_i64, vec![CP_INT, 0b11000100, 0b00000000, 0b00000000]),
        (1048576_i64, vec![CP_INT, 0b11100000, 0b00010000, 0b00000000, 0b00000000]),
        (4194304_i64, vec![CP_INT, 0b11100000, 0b01000000, 0b00000000, 0b00000000]),
        (67108864_i64, vec![CP_INT, 0b11100100, 0b00000000, 0b00000000, 0b00000000]),
        (268435456_i64, vec![CP_INT, 0b11110000, 0b00010000, 0b00000000, 0b00000000, 0b00000000]),
        (1073741824_i64, vec![CP_INT, 0b11110000, 0b01000000, 0b00000000, 0b00000000, 0b00000000]),
        (17179869184_i64, vec![CP_INT, 0b11110001, 0b00000100, 0b00000000, 0b00000000, 0b00000000, 0b00000000]),
        (68719476736_i64, vec![CP_INT, 0b11110001, 0b00010000, 0b00000000, 0b00000000, 0b00000000, 0b00000000]),
        (274877906944_i64, vec![CP_INT, 0b11110001, 0b01000000, 0b00000000, 0b00000000, 0b00000000, 0b00000000]),
        (4398046511104_i64, vec![CP_INT, 0b11110010, 0b00000100, 0b00000000, 0b00000000, 0b00000000, 0b00000000, 0b00000000]),
        (17592186044416_i64, vec![CP_INT, 0b11110010, 0b00010000, 0b00000000, 0b00000000, 0b00000000, 0b00000000, 0b00000000]),
        (70368744177664_i64, vec![CP_INT, 0b11110010, 0b01000000, 0b00000000, 0b00000000, 0b00000000, 0b00000000, 0b00000000]),
        (-4_i64, vec![CP_INT, 0b01000100]),
        (-16_i64, vec![CP_INT, 0b01010000]),
        (-64_i64, vec![CP_INT, 0b10100000, 0b01000000]),
        (-1024_i64, vec![CP_INT, 0b10100100, 0b00000000]),
        (-4096_i64, vec![CP_INT, 0b10110000, 0b00000000]),
        (-16384_i64, vec![CP_INT, 0b11010000, 0b01000000, 0b00000000]),
        (-262144_i64, vec![CP_INT, 0b11010100, 0b00000000, 0b00000000]),
    ];

    for (value, expected) in test_cases {
        let mut serializer = Serializer::new(Vec::new());
        serializer.serialize_i64(value).unwrap();
        let buffer = serializer.into_inner();
        assert_eq!(expected, buffer);
        assert_eq!(read_one(&buffer), Token::Int(value));
    }
}
