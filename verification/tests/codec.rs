//! Unit tests of the varint codec, the record decoder, and value
//! comparison.

use sqlite_reader::error::DbError;
use sqlite_reader::numeric::{compare_values, literal_matches, CmpResult, Literal};
use sqlite_reader::record::{parse_record, Value};
use sqlite_reader::varint::{encode_varint, parse_varint};

fn round_trip(v: u64, expected_len: usize) {
    let enc = encode_varint(v);
    assert_eq!(enc.len(), expected_len);
    let (dec, used) = parse_varint(&enc, 0).unwrap();
    assert_eq!(dec, v);
    assert_eq!(used, enc.len());
    // re-encoding the decoded value reproduces the source bytes
    assert_eq!(encode_varint(dec), enc);
}

#[test]
fn varint_round_trips() {
    round_trip(0, 1);
    round_trip(127, 1);
    round_trip(128, 2);
    round_trip(300, 2);
    round_trip(0x3FFF, 2);
    round_trip(0x4000, 3);
    round_trip((1 << 56) - 1, 8);
    round_trip(1 << 56, 9);
    round_trip(u64::MAX, 9);
}

#[test]
fn varint_known_encoding() {
    // 300 = 0b10_0101100: two seven-bit groups
    assert_eq!(encode_varint(300), vec![0x82, 0x2C]);
    let (v, used) = parse_varint(&[0x82, 0x2C, 0xFF], 0).unwrap();
    assert_eq!((v, used), (300, 2));
}

#[test]
fn varint_truncated_fails() {
    assert_eq!(parse_varint(&[0x80], 0), None);
    assert_eq!(parse_varint(&[], 0), None);
    // eight continuation bytes and no ninth
    assert_eq!(parse_varint(&[0x80; 8], 0), None);
}

#[test]
fn varint_ninth_byte_uses_all_bits() {
    let enc = encode_varint(u64::MAX);
    assert_eq!(enc, vec![0xFF; 9]);
}

fn rec(serials: &[u64], body: &[u8]) -> Vec<u8> {
    let mut hdr = Vec::new();
    for s in serials {
        hdr.extend(encode_varint(*s));
    }
    let mut out = encode_varint(hdr.len() as u64 + 1);
    out.extend(hdr);
    out.extend(body);
    out
}

#[test]
fn record_decodes_every_integer_width() {
    let body: Vec<u8> = vec![
        0x81, // i8 -127
        0x01, 0x00, // i16 256
        0xFF, 0xFF, 0xFF, // i24 -1
        0x00, 0x00, 0x01, 0x00, // i32 256
        0xFF, 0xFF, 0xFF, 0xFF, 0xFF, 0xFE, // i48 -2
        0x00, 0x00, 0x00, 0x00, 0x00, 0x00, 0x00, 0x2A, // i64 42
    ];
    let vals = parse_record(&rec(&[1, 2, 3, 4, 5, 6], &body), 6).unwrap();
    assert!(matches!(vals[0], Value::I8(-127)));
    assert!(matches!(vals[1], Value::I16(256)));
    assert!(matches!(vals[2], Value::I24(-1)));
    assert!(matches!(vals[3], Value::I32(256)));
    assert!(matches!(vals[4], Value::I48(-2)));
    assert!(matches!(vals[5], Value::I64(42)));
}

#[test]
fn record_decodes_constants_null_float_text_blob() {
    let f = 1.5f64.to_bits();
    let mut body = f.to_be_bytes().to_vec();
    body.extend(b"hi");
    body.extend(&[0xDE, 0xAD]);
    let vals = parse_record(&rec(&[0, 8, 9, 7, 13 + 2 * 2, 12 + 2 * 2], &body), 6).unwrap();
    assert!(matches!(vals[0], Value::Null));
    assert!(matches!(vals[1], Value::I8(0)));
    assert!(matches!(vals[2], Value::I8(1)));
    assert!(matches!(vals[3], Value::F(bits) if bits == f));
    assert!(matches!(&vals[4], Value::Text(t) if t == b"hi"));
    assert!(matches!(&vals[5], Value::Blob(b) if b == &vec![0xDEu8, 0xAD]));
}

#[test]
fn record_rejects_reserved_serial_types() {
    assert_eq!(parse_record(&rec(&[10], &[]), 1), Err(DbError::Malformed));
    assert_eq!(parse_record(&rec(&[11], &[]), 1), Err(DbError::Malformed));
}

#[test]
fn record_rejects_truncated_column() {
    // serial type 4 wants four bytes, only two follow
    assert_eq!(parse_record(&rec(&[4], &[0x01, 0x02]), 1), Err(DbError::Malformed));
}

#[test]
fn numeric_comparison_crosses_widths() {
    assert_eq!(compare_values(&Value::I8(1), &Value::I64(1)), Some(CmpResult::Equal));
    assert_eq!(compare_values(&Value::I16(-3), &Value::I64(5)), Some(CmpResult::Less));
    assert_eq!(
        compare_values(&Value::I64(7), &Value::F(7.0f64.to_bits())),
        Some(CmpResult::Equal)
    );
    assert_eq!(
        compare_values(&Value::F(1.5f64.to_bits()), &Value::F(2.5f64.to_bits())),
        Some(CmpResult::Less)
    );
    assert_eq!(
        compare_values(&Value::F((-0.0f64).to_bits()), &Value::I8(0)),
        Some(CmpResult::Equal)
    );
}

#[test]
fn nan_and_blobs_are_incomparable() {
    let nan = Value::F(f64::NAN.to_bits());
    assert_eq!(compare_values(&nan, &Value::I8(0)), None);
    assert_eq!(compare_values(&nan, &nan), None);
    let blob = Value::Blob(vec![1, 2]);
    assert_eq!(compare_values(&blob, &blob), None);
    assert_eq!(compare_values(&Value::Null, &Value::Text(b"x".to_vec())), None);
}

#[test]
fn null_equals_null_and_text_orders_bytewise() {
    assert_eq!(compare_values(&Value::Null, &Value::Null), Some(CmpResult::Equal));
    let a = Value::Text(b"apple".to_vec());
    let b = Value::Text(b"banana".to_vec());
    assert_eq!(compare_values(&a, &b), Some(CmpResult::Less));
    assert_eq!(compare_values(&b, &a), Some(CmpResult::Greater));
    assert_eq!(compare_values(&a, &a), Some(CmpResult::Equal));
}

#[test]
fn infinities_sit_at_the_ends() {
    let pinf = Value::F(f64::INFINITY.to_bits());
    let ninf = Value::F(f64::NEG_INFINITY.to_bits());
    assert_eq!(compare_values(&pinf, &Value::I64(i64::MAX)), Some(CmpResult::Greater));
    assert_eq!(compare_values(&ninf, &Value::I64(i64::MIN)), Some(CmpResult::Less));
    assert_eq!(compare_values(&pinf, &pinf), Some(CmpResult::Equal));
}

#[test]
fn decimal_literal_matches_exact_binary_fractions() {
    // 1.5 and 0.25 are exact in both decimal and binary
    let lit = Literal::Num { neg: false, mantissa: 15, scale: 1 };
    assert!(literal_matches(&lit, &Value::F(1.5f64.to_bits())));
    let lit = Literal::Num { neg: false, mantissa: 25, scale: 2 };
    assert!(literal_matches(&lit, &Value::F(0.25f64.to_bits())));
    let lit = Literal::Num { neg: true, mantissa: 3, scale: 0 };
    assert!(literal_matches(&lit, &Value::I16(-3)));
    assert!(!literal_matches(&lit, &Value::I16(3)));
    let lit = Literal::Text(b"abc".to_vec());
    assert!(literal_matches(&lit, &Value::Text(b"abc".to_vec())));
    assert!(!literal_matches(&lit, &Value::I8(1)));
}

#[test]
fn value_equality_is_numeric_not_structural() {
    assert_eq!(Value::I8(1), Value::I64(1));
    assert_ne!(Value::I8(1), Value::I8(2));
    // a blob never equals anything, itself included
    assert_ne!(Value::Blob(vec![1]), Value::Blob(vec![1]));
}

#[test]
fn non_minimal_varint_decodes_but_reencodes_shorter() {
    // a valid varint is a canonical encoding; this two-byte spelling of
    // zero decodes fine but is not one, and re-encoding shortens it
    let (v, used) = parse_varint(&[0x80, 0x00], 0).unwrap();
    assert_eq!((v, used), (0, 2));
    assert_eq!(encode_varint(v), vec![0x00]);
}

#[test]
fn record_cursor_is_fixed_by_the_serial_widths() {
    // the column bytes span exactly the sum of the serial types' widths,
    // so trailing junk after them changes nothing
    let exact = rec(&[1, 13 + 2 * 3], &[5, b'a', b'b', b'c']);
    let mut padded = exact.clone();
    padded.extend(&[0xEE, 0xEE, 0xEE]);
    assert_eq!(parse_record(&exact, 2), parse_record(&padded, 2));
}
