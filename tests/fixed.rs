use chainpack::datetime::CPDateTime;
use chainpack::error::Error;
use chainpack::fixed_datetime::ChainPackDateTime;
use chainpack::ser::{to_vec, Serializer};
use chainpack::token::Token;
use chainpack::types::{CP_DATETIME, CP_MAP, CP_STRING, CP_TERM};

#[test]
fn fixed_datetime_bytes_and_back() {
    let d = ChainPackDateTime { msec: 1_517_529_600_123, utc_offset: -36_900 };
    let bytes = d.to_bytes();
    let mut expected = vec![CP_DATETIME];
    expected.extend_from_slice(&1_517_529_600_123i64.to_le_bytes());
    expected.extend_from_slice(&(-36_900i32).to_le_bytes());
    assert_eq!(bytes, expected);
    assert_eq!(ChainPackDateTime::from_bytes(&bytes), Ok(d));
}

#[test]
fn fixed_datetime_before_unix_epoch() {
    let d = ChainPackDateTime { msec: -1, utc_offset: 3600 };
    let bytes = d.to_bytes();
    assert_eq!(&bytes[1..9], &[0xFF; 8]);
    assert_eq!(ChainPackDateTime::from_bytes(&bytes), Ok(d));
}

#[test]
fn fixed_datetime_errors() {
    assert_eq!(ChainPackDateTime::from_bytes(&[]), Err(Error::Eof));
    assert_eq!(ChainPackDateTime::from_bytes(&[0x86, 0, 0]), Err(Error::InvalidType));
    assert_eq!(ChainPackDateTime::from_bytes(&[CP_DATETIME, 0, 0]), Err(Error::Eof));
    let far = ChainPackDateTime { msec: i64::MAX, utc_offset: 0 };
    assert_eq!(ChainPackDateTime::from_bytes(&far.to_bytes()), Err(Error::InvalidDateTime));
    let bad_offset = ChainPackDateTime { msec: 0, utc_offset: 90_000 };
    assert_eq!(ChainPackDateTime::from_bytes(&bad_offset.to_bytes()), Err(Error::InvalidDateTime));
}

#[test]
fn fixed_datetime_from_cpdatetime() {
    let d = CPDateTime::new(42, -60).unwrap();
    assert_eq!(ChainPackDateTime::from(d), ChainPackDateTime { msec: 42, utc_offset: -60 });
}

#[test]
fn variants() {
    let mut ser = Serializer::new(Vec::new());
    ser.serialize_unit_variant("Red");
    ser.open_variant("Circle");
    ser.serialize_i64(5).unwrap();
    ser.end();
    assert_eq!(
        ser.into_inner(),
        vec![
            CP_STRING, 3, b'R', b'e', b'd',
            CP_MAP, CP_STRING, 6, b'C', b'i', b'r', b'c', b'l', b'e', 0x45, CP_TERM
        ]
    );
}

#[test]
fn first_refused_token_decides_the_error() {
    let bad_offset = CPDateTime::new(0, 16 * 3600).unwrap();
    let tokens = vec![Token::Int(1), Token::DateTime(bad_offset), Token::Int(i64::MIN)];
    assert_eq!(to_vec(&tokens), Err(Error::InvalidDateTime));
    let tokens = vec![Token::Int(i64::MIN), Token::DateTime(bad_offset)];
    assert_eq!(to_vec(&tokens), Err(Error::UnsupportedType));
}
