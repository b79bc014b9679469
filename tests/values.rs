use chainpack::datetime::CPDateTime;
use chainpack::de::{from_slice, Deserializer};
use chainpack::decimal::CPDecimal;
use chainpack::error::Error;
use chainpack::istruct::CPIStruct;
use chainpack::ser::{to_vec, Serializer};
use chainpack::token::Token;
use chainpack::types::{
    CP_DATETIME, CP_DECIMAL, CP_IMAP, CP_INT, CP_LIST, CP_MAP, CP_NULL, CP_STRING, CP_TERM, CP_UINT,
};
use chainpack::varint::{read_varint, read_varuint, serialize_raw_i64, serialize_raw_u64};

#[test]
fn test_decimal_serde() {
    let test_cases = vec![
        (CPDecimal::new(1, 2), vec![CP_DECIMAL, 1, 2]),
        (CPDecimal::new(1, -2), vec![CP_DECIMAL, 1, 0b0100_0010]),
    ];
    for (dec, expected) in test_cases {
        let serialized = to_vec(&[Token::Decimal(dec)]).expect("serialization failed");
        assert_eq!(expected, serialized);
        let deserialized = from_slice(&serialized).expect("deserialization failed");
        assert_eq!(vec![Token::Decimal(dec)], deserialized);
    }
}

#[test]
fn test_istruct() {
    let test_struct = CPIStruct(vec![
        (1i64, Token::Int(1)),
        (3i64, Token::String("hello".to_string())),
    ]);
    let mut serializer = Serializer::new(Vec::new());
    serializer.serialize_imap();
    for (key, value) in &test_struct.0 {
        serializer.serialize_i64(*key).unwrap();
        serializer.serialize_token(value).unwrap();
    }
    serializer.end();
    let buffer = serializer.into_inner();
    assert_eq!(
        buffer,
        vec![CP_IMAP, 0x41, 0x41, 0x43, CP_STRING, 5, b'h', b'e', b'l', b'l', b'o', CP_TERM]
    );

    let tokens = from_slice(&buffer).unwrap();
    assert_eq!(
        tokens,
        vec![
            Token::IMap,
            Token::Int(1),
            Token::Int(1),
            Token::Int(3),
            Token::String("hello".to_string()),
            Token::End,
        ]
    );
}

#[test]
fn test_struct_serde() {
    let dt = chrono::DateTime::parse_from_rfc3339("2023-01-01T00:00:00Z").unwrap();
    let dt = CPDateTime::new(dt.timestamp_millis(), dt.offset().local_minus_utc()).unwrap();
    let s = |x: &str| Token::String(x.to_string());
    let tokens = vec![
        Token::StrMap,
        s("numbers"), Token::List, Token::Int(1), Token::Int(2), Token::Int(3), Token::Int(4), Token::Int(5), Token::End,
        s("both"), Token::List, Token::DateTime(dt), Token::Int(42), Token::End,
        s("sub"), Token::StrMap, s("number"), Token::Int(42), Token::End,
        s("timestamp"), Token::DateTime(dt),
        s("decimal"), Token::Decimal(CPDecimal::new(12345, 6)),
        s("maybe_decimal"), Token::Null,
        s("name"), s("John Doe"),
        s("age"), Token::UInt(30),
        s("salary"), Token::Int(50000),
        s("weight"), Token::Double(70.5f64.to_bits()),
        Token::End,
    ];
    let serialized = to_vec(&tokens).expect("serialization failed");
    let deserialized = from_slice(&serialized).expect("deserialization failed");
    assert_eq!(tokens, deserialized);
}

#[test]
fn test_istruct_serde() {
    let tokens = vec![Token::IMap, Token::Int(1), Token::Int(42), Token::End];
    let serialized = to_vec(&tokens).expect("serialization failed");
    assert_eq!(serialized, vec![CP_IMAP, 0x41, 0x41 + 41, CP_TERM]);
    let deserialized = from_slice(&serialized).expect("deserialization failed");
    assert_eq!(tokens, deserialized);
}

#[test]
fn unsigned_127_takes_the_one_byte_varint() {
    let bytes = to_vec(&[Token::UInt(127)]).unwrap();
    assert_eq!(bytes, vec![CP_UINT, 0x7F]);
    assert_eq!(from_slice(&bytes), Ok(vec![Token::UInt(127)]));
}

#[test]
fn signed_minus_64_takes_the_two_byte_varint() {
    let bytes = to_vec(&[Token::Int(-64)]).unwrap();
    assert_eq!(bytes, vec![CP_INT, 0xA0, 0x40]);
    assert_eq!(from_slice(&bytes), Ok(vec![Token::Int(-64)]));
}

#[test]
fn signed_4_is_inline() {
    let bytes = to_vec(&[Token::Int(4)]).unwrap();
    assert_eq!(bytes, vec![0x44]);
    assert_eq!(from_slice(&bytes), Ok(vec![Token::Int(4)]));
}

#[test]
fn list_of_small_ints() {
    let tokens = vec![Token::List, Token::Int(1), Token::Int(2), Token::Int(3), Token::End];
    let bytes = to_vec(&tokens).unwrap();
    assert_eq!(bytes, vec![CP_LIST, 0x41, 0x42, 0x43, CP_TERM]);
    assert_eq!(from_slice(&bytes), Ok(tokens));
}

#[test]
fn decimal_with_negative_exponent() {
    let mut ser = Serializer::new(Vec::new());
    ser.serialize_decimal(&CPDecimal::new(1, -2)).unwrap();
    assert_eq!(ser.into_inner(), vec![CP_DECIMAL, 0x01, 0x42]);
}

#[test]
fn string_hello() {
    let bytes = to_vec(&[Token::String("hello".to_string())]).unwrap();
    assert_eq!(bytes, vec![CP_STRING, 0x05, b'h', b'e', b'l', b'l', b'o']);
}

#[test]
fn map_of_two_entries() {
    let tokens = vec![
        Token::StrMap,
        Token::String("a".to_string()),
        Token::Int(1),
        Token::String("b".to_string()),
        Token::Int(2),
        Token::End,
    ];
    let bytes = to_vec(&tokens).unwrap();
    assert_eq!(bytes, vec![CP_MAP, CP_STRING, 0x01, b'a', 0x41, CP_STRING, 0x01, b'b', 0x42, CP_TERM]);
    assert_eq!(from_slice(&bytes), Ok(tokens));
}

#[test]
fn small_integers_take_one_byte() {
    for v in 0..64u64 {
        assert_eq!(to_vec(&[Token::UInt(v)]).unwrap(), vec![v as u8]);
        assert_eq!(to_vec(&[Token::Int(v as i64)]).unwrap(), vec![0x40 + v as u8]);
    }
    // A negative value is never inline.
    assert_eq!(to_vec(&[Token::Int(-4)]).unwrap(), vec![CP_INT, 0x44]);
}

#[test]
fn varuint_length_follows_bit_length() {
    let mut bits: u32 = 1;
    while bits <= 64 {
        let u: u64 = if bits == 64 { u64::MAX } else { (1u64 << bits) - 1 };
        let mut w = Vec::new();
        serialize_raw_u64(&mut w, u);
        let expected = match bits {
            0..=7 => 1,
            8..=14 => 2,
            15..=21 => 3,
            22..=28 => 4,
            k => (k as usize + 7) / 8 + 1,
        };
        assert_eq!(w.len(), expected, "bits {}", bits);
        assert_eq!(read_varuint(&w, 0), Ok((u, w.len())));
        bits += 1;
    }
}

#[test]
fn varint_extremes() {
    let mut w = Vec::new();
    serialize_raw_i64(&mut w, i64::MAX).unwrap();
    assert_eq!(w, vec![0xF4, 0x7F, 0xFF, 0xFF, 0xFF, 0xFF, 0xFF, 0xFF, 0xFF]);
    assert_eq!(read_varint(&w, 0), Ok((i64::MAX, 9)));
    let mut w = Vec::new();
    serialize_raw_i64(&mut w, -i64::MAX).unwrap();
    assert_eq!(w, vec![0xF4, 0xFF, 0xFF, 0xFF, 0xFF, 0xFF, 0xFF, 0xFF, 0xFF]);
    assert_eq!(read_varint(&w, 0), Ok((-i64::MAX, 9)));
    let mut w = Vec::new();
    serialize_raw_i64(&mut w, 0).unwrap();
    assert_eq!(w, vec![0x00]);
}

#[test]
fn i64_min_is_refused() {
    let mut w = Vec::new();
    assert_eq!(serialize_raw_i64(&mut w, i64::MIN), Err(Error::UnsupportedType));
    assert!(w.is_empty());
    assert_eq!(to_vec(&[Token::Int(i64::MIN)]), Err(Error::UnsupportedType));
    let mut ser = Serializer::new(Vec::new());
    assert_eq!(ser.serialize_decimal(&CPDecimal::new(i64::MIN, 0)), Err(Error::UnsupportedType));
}

#[test]
fn non_canonical_long_forms_are_accepted() {
    // 5 in the long form with nine payload bytes.
    let bytes = vec![0xF5, 0, 0, 0, 0, 0, 0, 0, 0, 5];
    assert_eq!(read_varuint(&bytes, 0), Ok((5, 10)));
    // -5: sign in the top bit of the first payload byte.
    let bytes = vec![0xF5, 0x80, 0, 0, 0, 0, 0, 0, 0, 5];
    assert_eq!(read_varint(&bytes, 0), Ok((-5, 10)));
}

#[test]
fn too_large_integers_are_refused() {
    // 2^64 in nine bytes.
    let bytes = vec![CP_UINT, 0xF5, 1, 0, 0, 0, 0, 0, 0, 0, 0];
    assert_eq!(from_slice(&bytes), Err(Error::InvalidType));
    // magnitude 2^63.
    let bytes = vec![CP_INT, 0xF5, 0x80, 0x80, 0, 0, 0, 0, 0, 0, 0];
    assert_eq!(from_slice(&bytes), Err(Error::InvalidType));
}

#[test]
fn truncated_input_is_eof() {
    assert_eq!(from_slice(&[]), Err(Error::Eof));
    assert_eq!(from_slice(&[CP_UINT, 0xC0, 0x01]), Err(Error::Eof));
    assert_eq!(from_slice(&[CP_STRING, 5, b'h']), Err(Error::Eof));
    assert_eq!(from_slice(&[CP_LIST, 0x41]), Err(Error::Eof));
    assert_eq!(from_slice(&[0x83, 1, 2, 3]), Err(Error::Eof));
}

#[test]
fn unknown_tags_and_stray_terminators_are_invalid() {
    assert_eq!(from_slice(&[0x84]), Err(Error::InvalidType));
    assert_eq!(from_slice(&[CP_TERM]), Err(Error::InvalidType));
}

#[test]
fn map_entries_need_a_key_of_the_right_kind_and_a_value() {
    // a key without a value
    assert_eq!(from_slice(&[CP_MAP, CP_STRING, 1, b'a', CP_TERM]), Err(Error::InvalidType));
    // an integer key in a map with string keys
    assert_eq!(from_slice(&[CP_MAP, 0x41, 0x41, CP_TERM]), Err(Error::InvalidType));
    // a string key in a map with integer keys
    assert_eq!(from_slice(&[CP_IMAP, CP_STRING, 1, b'a', 0x41, CP_TERM]), Err(Error::InvalidType));
    // an unsigned key is no signed integer
    assert_eq!(from_slice(&[CP_IMAP, 0x01, 0x41, CP_TERM]), Err(Error::InvalidType));
    // a container as a value is fine
    let tokens = vec![
        Token::IMap,
        Token::Int(-7),
        Token::List,
        Token::End,
        Token::End,
    ];
    let bytes = to_vec(&tokens).unwrap();
    assert_eq!(from_slice(&bytes), Ok(tokens));
}

#[test]
fn decimal_exponent_beyond_i8_is_invalid() {
    // exponent 200 as a two-byte varint
    let bytes = vec![CP_DECIMAL, 0x01, 0x80, 200];
    assert_eq!(from_slice(&bytes), Err(Error::InvalidType));
}

#[test]
fn bad_utf8_is_reported() {
    assert_eq!(from_slice(&[CP_STRING, 2, 0xC3, 0x28]), Err(Error::InvalidUtf8));
    let bytes = to_vec(&[Token::String("žluťoučký".to_string())]).unwrap();
    assert_eq!(from_slice(&bytes), Ok(vec![Token::String("žluťoučký".to_string())]));
}

#[test]
fn option_and_terminator_peeks() {
    let bytes = vec![CP_NULL, CP_TERM];
    let mut de = Deserializer::from_reader(&bytes);
    assert_eq!(de.peek_u8(), Ok(CP_NULL));
    assert_eq!(de.deserialize_option(), Ok(false));
    assert_eq!(de.more_elements(), Ok(false));
    assert!(de.is_empty());
    assert_eq!(de.more_elements(), Err(Error::Eof));
    assert_eq!(de.next_u8(), Err(Error::Eof));
}

#[test]
fn trailing_bytes_stay_unread() {
    assert_eq!(from_slice(&[0x41, 0x42]), Ok(vec![Token::Int(1)]));
}

#[test]
fn datetime_token_tag() {
    let dt = CPDateTime::new(1_517_529_600_000, 0).unwrap();
    assert_eq!(to_vec(&[Token::DateTime(dt)]).unwrap(), vec![CP_DATETIME, 0x02]);
}

#[test]
fn doubles_are_little_endian() {
    let bytes = to_vec(&[Token::Double(1.0f64.to_bits())]).unwrap();
    assert_eq!(bytes, vec![0x83, 0, 0, 0, 0, 0, 0, 0xF0, 0x3F]);
    assert_eq!(from_slice(&bytes), Ok(vec![Token::Double(1.0f64.to_bits())]));
}
