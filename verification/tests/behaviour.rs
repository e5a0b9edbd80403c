use nota::{record_insert, Blob, ByteReader, DecimalFloat, DecodeError, Value};

fn encode(value: &Value) -> Vec<u8> {
    let mut out = Vec::new();
    value.serialize_into(&mut out);
    out
}

fn decode(bytes: &[u8]) -> Result<Value, DecodeError> {
    let mut reader = ByteReader::new(bytes);
    Value::parse_from(&mut reader)
}

fn decode_all(bytes: &[u8]) -> Value {
    let mut reader = ByteReader::new(bytes);
    let value = Value::parse_from(&mut reader).unwrap();
    assert_eq!(reader.position(), bytes.len());
    assert_eq!(reader.remaining_len(), 0);
    value
}

fn blob_of(bits: &[bool]) -> Blob {
    let mut blob = Blob::new();
    for bit in bits {
        assert!(blob.push(*bit));
    }
    blob
}

fn record_of(entries: Vec<(&str, Value)>) -> Value {
    let mut out = Vec::new();
    for (key, value) in entries {
        record_insert(&mut out, key.to_string(), value);
    }
    Value::Record(out)
}

fn nested_arrays(depth: usize) -> Vec<u8> {
    let mut bytes = vec![0x41u8; depth];
    bytes.push(0xC0);
    bytes
}

#[test]
fn round_trip_of_scalars() {
    for i in [
        0i128,
        1,
        -1,
        7,
        8,
        -8,
        1023,
        1024,
        -1024,
        2023,
        123456789,
        i64::MAX as i128,
        i64::MIN as i128,
        i128::MAX,
        i128::MIN,
        i128::MIN + 1,
    ] {
        let value = Value::Integer(i);
        assert_eq!(decode_all(&encode(&value)), value);
    }
    for b in [false, true] {
        let value = Value::Bool(b);
        assert_eq!(decode_all(&encode(&value)), value);
    }
}

#[test]
fn round_trip_of_texts() {
    for text in ["", "a", "cat", "héllo", "☃★♲", "𓂀𓃠", "\u{7f}\u{80}\u{3fff}\u{4000}\u{10ffff}"] {
        let value = Value::Text(text.to_string());
        assert_eq!(decode_all(&encode(&value)), value);
    }
    let long: String = std::iter::repeat('x').take(5000).collect();
    let value = Value::Text(long);
    assert_eq!(decode_all(&encode(&value)), value);
}

#[test]
fn round_trip_of_blobs() {
    for len in 0..40usize {
        let bits: Vec<bool> = (0..len).map(|i| i % 3 == 0 || i % 5 == 1).collect();
        let value = Value::Blob(blob_of(&bits));
        let bytes = encode(&value);
        assert_eq!(bytes.len(), 1 + (if len >= 16 { 1 } else { 0 }) + (len + 7) / 8);
        assert_eq!(decode_all(&bytes), value);
    }
}

#[test]
fn round_trip_of_nested_values() {
    let inner = record_of(vec![
        ("name", Value::Text("snow".to_string())),
        ("bits", Value::Blob(blob_of(&[true, false, true]))),
        ("list", Value::Array(vec![Value::Integer(-5), Value::Bool(true), Value::Array(vec![])])),
    ]);
    let value = Value::Array(vec![
        inner,
        record_of(vec![]),
        Value::Integer(i128::MIN),
        Value::Text("☃".to_string()),
    ]);
    assert_eq!(decode_all(&encode(&value)), value);
}

#[test]
fn round_trip_of_long_arrays() {
    let items: Vec<Value> = (0..300).map(|i| Value::Integer(i * 1000 - 7)).collect();
    let value = Value::Array(items);
    let bytes = encode(&value);
    assert_eq!(&bytes[..2], &[0x52, 0x2C]);
    assert_eq!(decode_all(&bytes), value);
}

#[test]
fn unsigned_preamble_is_as_short_as_can_be() {
    let cases: [(u128, usize); 10] = [
        (0, 1),
        (15, 1),
        (16, 2),
        (2047, 2),
        (2048, 3),
        (262143, 3),
        (262144, 4),
        (u64::MAX as u128, 10),
        (1 << 123, 19),
        (u128::MAX, 19),
    ];
    for (value, len) in cases {
        let mut out = Vec::new();
        nota::serialize_unsigned_preamble(0x20, value, &mut out);
        assert_eq!(out.len(), len, "length of the preamble of {value}");
        if len > 1 {
            assert!(out[0] & 0x0f != 0 || out[1] & 0x70 != 0, "no leading group is empty");
        }
    }
}

#[test]
fn signed_preamble_is_as_short_as_can_be() {
    let cases: [(i128, usize); 9] = [
        (0, 1),
        (7, 1),
        (-7, 1),
        (8, 2),
        (-8, 2),
        (1023, 2),
        (1024, 3),
        (i128::MAX, 19),
        (i128::MIN, 19),
    ];
    for (value, len) in cases {
        let mut out = Vec::new();
        nota::serialize_signed_preamble(0x80, value, &mut out);
        assert_eq!(out.len(), len, "length of the preamble of {value}");
        if len > 1 {
            assert!(out[0] & 0x07 != 0 || out[1] & 0x78 != 0, "no leading group is empty");
        }
    }
}

#[test]
fn unsigned_preamble_bytes() {
    let mut out = vec![0xAA];
    nota::serialize_unsigned_preamble(0x40, 300, &mut out);
    assert_eq!(out, [0xAA, 0x52, 0x2C]);
    let mut out = Vec::new();
    nota::serialize_unsigned_preamble(0x00, 11, &mut out);
    assert_eq!(out, [0x0B]);
    let mut out = Vec::new();
    nota::serialize_unsigned_preamble(0x00, 24, &mut out);
    assert_eq!(out, [0x10, 0x18]);
}

#[test]
fn continuation_bytes() {
    let mut out = Vec::new();
    nota::serialize_integer_continuation(2023, 14, &mut out);
    assert_eq!(out, [0x8F, 0x67]);
    let mut out = vec![1, 2];
    nota::serialize_integer_continuation(2023, 0, &mut out);
    assert_eq!(out, [1, 2]);
    let mut out = Vec::new();
    nota::serialize_integer_continuation(2023, 21, &mut out);
    assert_eq!(out, [0x80, 0x8F, 0x67]);
    let mut out = Vec::new();
    nota::serialize_integer_continuation(u128::MAX, 133, &mut out);
    assert_eq!(out.len(), 19);
    assert_eq!(out[0], 0x83);
    assert_eq!(out[18], 0x7f);
}

#[test]
fn zero_is_one_byte() {
    assert_eq!(encode(&Value::Integer(0)), [0x80]);
    assert_eq!(decode_all(&[0x80]), Value::Integer(0));
}

#[test]
fn negation_flips_the_sign_bit_only() {
    for n in [1i128, 7, 8, 2023, 1 << 40, i128::MAX] {
        let plus = encode(&Value::Integer(n));
        let minus = encode(&Value::Integer(-n));
        assert_eq!(plus.len(), minus.len());
        assert_eq!(plus[0] & 0x08, 0);
        assert_eq!(minus[0], plus[0] | 0x08);
        assert_eq!(&plus[1..], &minus[1..]);
        assert_eq!(decode_all(&plus), Value::Integer(n));
        assert_eq!(decode_all(&minus), Value::Integer(-n));
    }
}

#[test]
fn least_integer() {
    let bytes = encode(&Value::Integer(i128::MIN));
    let mut expected = vec![0x9A];
    expected.extend(std::iter::repeat(0x80).take(17));
    expected.push(0x00);
    assert_eq!(bytes, expected);
    assert_eq!(decode_all(&bytes), Value::Integer(i128::MIN));
}

#[test]
fn known_encodings() {
    assert_eq!(encode(&Value::Integer(2023)), [0x90, 0x8F, 0x67]);
    assert_eq!(encode(&Value::Integer(-1)), [0x89]);
    let max = encode(&Value::Integer(i128::MAX));
    assert_eq!(max.len(), 19);
    assert_eq!(max[0], 0x91);
    assert_eq!(max[18], 0x7f);
    assert_eq!(encode(&Value::Bool(false)), [0xC0]);
    assert_eq!(encode(&Value::Bool(true)), [0xC1]);
    assert_eq!(encode(&Value::Text(String::new())), [0x20]);
    assert_eq!(encode(&Value::Text("cat".to_string())), [0x23, 0x63, 0x61, 0x74]);
    let snow = encode(&Value::Text("☃★♲".to_string()));
    assert_eq!(snow.len(), 1 + 3 * 2);
    assert_eq!(snow, [0x23, 0xCC, 0x03, 0xCC, 0x05, 0xCC, 0x72]);
}

#[test]
fn code_points() {
    let cases: [(char, &[u8]); 10] = [
        ('\0', &[0x00]),
        ('A', &[0x41]),
        ('\u{7f}', &[0x7F]),
        ('\u{80}', &[0x81, 0x00]),
        ('é', &[0x81, 0x69]),
        ('☃', &[0xCC, 0x03]),
        ('\u{3fff}', &[0xFF, 0x7F]),
        ('\u{4000}', &[0x81, 0x80, 0x00]),
        ('𓂀', &[0x84, 0xE1, 0x00]),
        ('\u{10ffff}', &[0xC3, 0xFF, 0x7F]),
    ];
    for (c, bytes) in cases {
        let mut out = Vec::new();
        nota::write_kim_char(c, &mut out);
        assert_eq!(out, bytes, "bytes of {c:?}");
        let mut reader = ByteReader::new(bytes);
        assert_eq!(nota::read_kim_char(&mut reader), Ok(c));
        assert_eq!(reader.position(), bytes.len());
    }
}

#[test]
fn code_point_errors() {
    let mut reader = ByteReader::new(&[]);
    assert_eq!(nota::read_kim_char(&mut reader), Err(DecodeError::UnexpectedEof));
    let mut reader = ByteReader::new(&[0x84, 0xE1]);
    assert_eq!(nota::read_kim_char(&mut reader), Err(DecodeError::UnexpectedEof));
    // 0xD800, a surrogate
    let mut reader = ByteReader::new(&[0x83, 0xB0, 0x00]);
    assert_eq!(nota::read_kim_char(&mut reader), Err(DecodeError::InvalidData));
    // 0x110000, past the last code point
    let mut reader = ByteReader::new(&[0xC4, 0x80, 0x00]);
    assert_eq!(nota::read_kim_char(&mut reader), Err(DecodeError::InvalidData));
    // leading groups of zero add nothing
    let mut reader = ByteReader::new(&[0x80, 0x80, 0x41, 0x42]);
    assert_eq!(nota::read_kim_char(&mut reader), Ok('A'));
    assert_eq!(reader.position(), 3);
    // 2^35 + 0x41, far past the last code point
    let mut reader = ByteReader::new(&[0x81, 0x80, 0x80, 0x80, 0x80, 0x41]);
    assert_eq!(nota::read_kim_char(&mut reader), Err(DecodeError::InvalidData));
    // 2^140 + 0x41
    let mut bytes = vec![0x81];
    bytes.extend(std::iter::repeat(0x80).take(19));
    bytes.push(0x41);
    let mut reader = ByteReader::new(&bytes);
    assert_eq!(nota::read_kim_char(&mut reader), Err(DecodeError::InvalidData));
    assert_eq!(decode(&[0x21, 0x81, 0x80, 0x80, 0x80, 0x80, 0x41]), Err(DecodeError::InvalidData));
}

#[test]
fn text_with_invalid_scalar_value() {
    assert_eq!(decode(&[0x21, 0x83, 0xB0, 0x00]), Err(DecodeError::InvalidData));
}

#[test]
fn text_that_ends_early() {
    assert_eq!(decode(&[0x23, 0x63, 0x61]), Err(DecodeError::UnexpectedEof));
    assert_eq!(decode(&[0x21, 0xCC]), Err(DecodeError::UnexpectedEof));
}

#[test]
fn blob_has_exactly_the_announced_bits() {
    let value = decode_all(&[0x0B, 0x55, 0xFF]);
    let expected = blob_of(&[
        false, true, false, true, false, true, false, true, true, true, true,
    ]);
    assert_eq!(value, Value::Blob(expected));
    match &value {
        Value::Blob(blob) => {
            assert_eq!(blob.len(), 11);
            assert_eq!(blob.get(10), Some(true));
            assert_eq!(blob.get(11), None);
        },
        _ => panic!("not a blob"),
    }
    assert_eq!(decode_all(&[0x0B, 0x55, 0xC0]), decode_all(&[0x0B, 0x55, 0xDF]));
    assert_ne!(decode_all(&[0x0B, 0x55, 0xC0]), decode_all(&[0x0C, 0x55, 0xC0]));
    assert_eq!(encode(&value), [0x0B, 0x55, 0xE0]);
}

#[test]
fn blob_that_ends_early() {
    assert_eq!(decode(&[0x0B, 0x55]), Err(DecodeError::UnexpectedEof));
    assert_eq!(decode(&[0x10]), Err(DecodeError::UnexpectedEof));
    assert_eq!(decode(&[0x1F, 0xFF, 0xFF, 0xFF, 0x7F, 1, 2, 3]), Err(DecodeError::UnexpectedEof));
}

#[test]
fn empty_blob() {
    assert_eq!(encode(&Value::Blob(Blob::new())), [0x00]);
    assert_eq!(decode_all(&[0x00]), Value::Blob(Blob::new()));
}

#[test]
fn record_key_must_be_text() {
    assert_eq!(decode(&[0x61, 0xC0, 0xC1]), Err(DecodeError::InvalidData));
    assert_eq!(decode(&[0x61, 0x81, 0x21, 0x61]), Err(DecodeError::InvalidData));
    assert_eq!(
        decode(&[0x62, 0x21, 0x61, 0xC0, 0x41, 0x21, 0x62, 0x80]),
        Err(DecodeError::InvalidData)
    );
}

#[test]
fn record_key_is_judged_before_the_value_is_read() {
    assert_eq!(decode(&[0x61, 0xC0]), Err(DecodeError::InvalidData));
    assert_eq!(decode(&[0x61, 0xC0, 0xE0]), Err(DecodeError::InvalidData));
    assert_eq!(decode(&[0x61, 0xC0, 0xA0]), Err(DecodeError::InvalidData));
    assert_eq!(decode(&[0x61, 0x81]), Err(DecodeError::InvalidData));
    assert_eq!(decode(&[0x61, 0x00, 0x90]), Err(DecodeError::InvalidData));
    assert_eq!(decode(&[0x61, 0x40, 0x21]), Err(DecodeError::InvalidData));
    assert_eq!(decode(&[0x61, 0x60]), Err(DecodeError::InvalidData));
    assert_eq!(
        decode(&[0x62, 0x21, 0x61, 0x81, 0xC1]),
        Err(DecodeError::InvalidData)
    );
    let mut reader = ByteReader::new(&[0x61, 0xC0, 0xC1, 0xC1]);
    assert_eq!(Value::parse_from(&mut reader), Err(DecodeError::InvalidData));
    assert_eq!(reader.position(), 2);
    // a key slot that holds no value at all is no key of another kind
    assert_eq!(decode(&[0x61]), Err(DecodeError::UnexpectedEof));
    assert_eq!(decode(&[0x61, 0x90]), Err(DecodeError::UnexpectedEof));
    assert_eq!(decode(&[0x61, 0xA0]), Err(DecodeError::Unsupported));
    assert_eq!(decode(&[0x61, 0x21, 0x61]), Err(DecodeError::UnexpectedEof));
}

#[test]
fn record_last_write_wins() {
    let bytes = [0x63, 0x21, 0x61, 0x81, 0x21, 0x62, 0x82, 0x21, 0x61, 0x83];
    let value = decode_all(&bytes);
    let expected = Value::Record(vec![
        ("a".to_string(), Value::Integer(3)),
        ("b".to_string(), Value::Integer(2)),
    ]);
    assert_eq!(value, expected);
    assert_eq!(encode(&value), [0x62, 0x21, 0x61, 0x83, 0x21, 0x62, 0x82]);
}

#[test]
fn record_insert_replaces_or_appends() {
    let mut entries = Vec::new();
    record_insert(&mut entries, "a".to_string(), Value::Integer(1));
    record_insert(&mut entries, "b".to_string(), Value::Integer(2));
    record_insert(&mut entries, "a".to_string(), Value::Bool(true));
    record_insert(&mut entries, "".to_string(), Value::Bool(false));
    assert_eq!(
        entries,
        vec![
            ("a".to_string(), Value::Bool(true)),
            ("b".to_string(), Value::Integer(2)),
            ("".to_string(), Value::Bool(false)),
        ]
    );
}

#[test]
fn long_array_length_on_short_input() {
    assert_eq!(decode(&[0x5F, 0xFF, 0xFF, 0x7F]), Err(DecodeError::UnexpectedEof));
    assert_eq!(decode(&[0x5F, 0xFF, 0xFF, 0x7F, 0xC0, 0xC1]), Err(DecodeError::UnexpectedEof));
    assert_eq!(decode(&[0x42, 0xC0]), Err(DecodeError::UnexpectedEof));
    assert_eq!(decode(&[0x5F, 0xFF]), Err(DecodeError::UnexpectedEof));
    let mut nested = vec![0x5F, 0xFF, 0x7F];
    nested.extend([0x5F, 0xFF, 0x7F]);
    nested.extend([0x5F, 0xFF, 0x7F]);
    assert_eq!(decode(&nested), Err(DecodeError::UnexpectedEof));
}

#[test]
fn nesting_has_a_limit() {
    assert_eq!(nota::MAX_DEPTH, 128);
    assert!(decode(&nested_arrays(128)).is_ok());
    assert_eq!(decode(&nested_arrays(129)), Err(DecodeError::TooDeep));
    assert_eq!(decode(&nested_arrays(100_000)), Err(DecodeError::TooDeep));
    assert_eq!(decode(&vec![0x41u8; 100_000]), Err(DecodeError::TooDeep));
    assert_eq!(decode(&vec![0x41u8; 100]), Err(DecodeError::UnexpectedEof));
    let mut records = Vec::new();
    for _ in 0..129 {
        records.extend([0x61, 0x20]);
    }
    records.push(0xC0);
    assert_eq!(decode(&records), Err(DecodeError::TooDeep));
}

#[test]
fn nesting_limit_can_be_chosen() {
    let bytes = nested_arrays(3);
    let mut reader = ByteReader::new(&bytes);
    assert_eq!(Value::parse_from_with_depth(&mut reader, 2), Err(DecodeError::TooDeep));
    let mut reader = ByteReader::new(&bytes);
    let expected =
        Value::Array(vec![Value::Array(vec![Value::Array(vec![Value::Bool(false)])])]);
    assert_eq!(Value::parse_from_with_depth(&mut reader, 3), Ok(expected));
    let mut reader = ByteReader::new(&[0x81]);
    assert_eq!(Value::parse_from_with_depth(&mut reader, 0), Ok(Value::Integer(1)));
    let mut reader = ByteReader::new(&[0x40]);
    assert_eq!(Value::parse_from_with_depth(&mut reader, 0), Err(DecodeError::TooDeep));
    let mut reader = ByteReader::new(&[0x60]);
    assert_eq!(Value::parse_from_with_depth(&mut reader, 0), Err(DecodeError::TooDeep));
}

#[test]
fn empty_input() {
    assert_eq!(decode(&[]), Err(DecodeError::UnexpectedEof));
}

#[test]
fn reserved_tag() {
    assert_eq!(decode(&[0xE0]), Err(DecodeError::InvalidData));
    assert_eq!(decode(&[0xFF, 0x00]), Err(DecodeError::InvalidData));
}

#[test]
fn decimal_float_tag() {
    assert_eq!(decode(&[0xA0]), Err(DecodeError::Unsupported));
    assert_eq!(decode(&[0xBF, 0x00]), Err(DecodeError::Unsupported));
}

#[test]
fn reserved_bool_patterns() {
    assert_eq!(decode(&[0xC2]), Err(DecodeError::Unsupported));
    assert_eq!(decode(&[0xDF]), Err(DecodeError::Unsupported));
    assert_eq!(decode(&[0xC0]), Ok(Value::Bool(false)));
    assert_eq!(decode(&[0xC1]), Ok(Value::Bool(true)));
}

#[test]
fn integer_that_ends_early() {
    assert_eq!(decode(&[0x90]), Err(DecodeError::UnexpectedEof));
    assert_eq!(decode(&[0x90, 0x8F]), Err(DecodeError::UnexpectedEof));
}

#[test]
fn integer_in_more_bytes_than_needed() {
    assert_eq!(decode_all(&[0x90, 0x01]), Value::Integer(1));
    assert_eq!(decode_all(&[0x90, 0x80, 0x80, 0x05]), Value::Integer(5));
    assert_eq!(decode_all(&[0x98, 0x01]), Value::Integer(-1));
    assert_eq!(decode_all(&[0x88]), Value::Integer(0));
}

#[test]
fn integer_past_128_bits() {
    // twenty continuation bytes: the magnitude is 2^133 + 1
    let mut bytes = vec![0x90, 0x81];
    bytes.extend(std::iter::repeat(0x80).take(18));
    bytes.push(0x01);
    assert_eq!(decode(&bytes), Err(DecodeError::Unsupported));
    let mut reader = ByteReader::new(&bytes);
    assert_eq!(nota::parse_integer(0x90, &mut reader), Err(DecodeError::Unsupported));
    // the magnitude 2^127 without a sign is one past the greatest integer
    let mut bytes = vec![0x92];
    bytes.extend(std::iter::repeat(0x80).take(17));
    bytes.push(0x00);
    assert_eq!(decode(&bytes), Err(DecodeError::Unsupported));
    // the magnitude 2^127 with a sign is the least integer
    bytes[0] = 0x9A;
    assert_eq!(decode_all(&bytes), Value::Integer(i128::MIN));
    // the magnitude 2^127 + 1 with a sign is one past it
    bytes[18] = 0x01;
    assert_eq!(decode(&bytes), Err(DecodeError::Unsupported));
    // the magnitude 2^128
    let mut bytes = vec![0x94];
    bytes.extend(std::iter::repeat(0x80).take(17));
    bytes.push(0x00);
    assert_eq!(decode(&bytes), Err(DecodeError::Unsupported));
    // a magnitude past 128 bits that ends early is input that ends early
    let mut bytes = vec![0x90, 0x81];
    bytes.extend(std::iter::repeat(0x80).take(25));
    assert_eq!(decode(&bytes), Err(DecodeError::UnexpectedEof));
    // leading groups of zero, however many, add nothing
    let mut bytes = vec![0x90];
    bytes.extend(std::iter::repeat(0x80).take(30));
    bytes.push(0x05);
    assert_eq!(decode_all(&bytes), Value::Integer(5));
}

#[test]
fn length_in_more_bytes_than_needed() {
    assert_eq!(decode_all(&[0x30, 0x80, 0x03, 0x63, 0x61, 0x74]), Value::Text("cat".to_string()));
}

#[test]
fn parse_len_and_parse_integer() {
    let mut reader = ByteReader::new(&[0x82, 0x2C, 0xFF]);
    assert_eq!(nota::parse_len(0x50, &mut reader), Ok(300));
    assert_eq!(reader.position(), 2);
    let mut reader = ByteReader::new(&[0xFF]);
    assert_eq!(nota::parse_len(0x4F, &mut reader), Ok(15));
    assert_eq!(reader.position(), 0);
    let mut reader = ByteReader::new(&[0x82]);
    assert_eq!(nota::parse_len(0x50, &mut reader), Err(DecodeError::UnexpectedEof));
    let mut reader = ByteReader::new(&[0x8F, 0x67]);
    assert_eq!(nota::parse_integer(0x98, &mut reader), Ok(-2023));
    let mut reader = ByteReader::new(&[]);
    assert_eq!(nota::parse_integer(0x87, &mut reader), Ok(7));
    assert_eq!(nota::parse_integer(0x8F, &mut reader), Ok(-7));
    assert_eq!(nota::parse_integer(0x97, &mut reader), Err(DecodeError::UnexpectedEof));
}

#[test]
fn length_past_a_machine_word() {
    // 2^70 + 2
    let mut bytes = vec![0x81];
    bytes.extend(std::iter::repeat(0x80).take(9));
    bytes.push(0x02);
    let mut reader = ByteReader::new(&bytes);
    assert_eq!(nota::parse_len(0x30, &mut reader), Err(DecodeError::UnexpectedEof));
    // 2^128 + 2
    let mut bytes = vec![0x84];
    bytes.extend(std::iter::repeat(0x80).take(17));
    bytes.push(0x02);
    let mut reader = ByteReader::new(&bytes);
    assert_eq!(nota::parse_len(0x30, &mut reader), Err(DecodeError::UnexpectedEof));
    // an array of 2^64 items, and nothing behind the length
    let mut bytes = vec![0x52];
    bytes.extend(std::iter::repeat(0x80).take(8));
    bytes.push(0x00);
    let mut reader = ByteReader::new(&bytes[1..]);
    let len = nota::parse_len(0x52, &mut reader);
    if usize::BITS <= 64 {
        assert_eq!(len, Err(DecodeError::UnexpectedEof));
    }
    assert_ne!(len, Ok(0));
    assert_eq!(decode(&bytes), Err(DecodeError::UnexpectedEof));
    bytes[0] = 0x32;
    assert_eq!(decode(&bytes), Err(DecodeError::UnexpectedEof));
    bytes[0] = 0x72;
    assert_eq!(decode(&bytes), Err(DecodeError::UnexpectedEof));
    bytes[0] = 0x12;
    assert_eq!(decode(&bytes), Err(DecodeError::UnexpectedEof));
    // leading groups of zero, however many, add nothing
    let mut bytes = vec![0x30];
    bytes.extend(std::iter::repeat(0x80).take(30));
    bytes.extend([0x03, 0x63, 0x61, 0x74]);
    assert_eq!(decode_all(&bytes), Value::Text("cat".to_string()));
}

#[test]
fn reader_after_a_failure_at_the_header() {
    for head in [0xE0u8, 0xFF, 0xA0, 0xBF, 0xC2, 0xDF] {
        let bytes = [head, 0x81, 0x82];
        let mut reader = ByteReader::new(&bytes);
        assert!(Value::parse_from(&mut reader).is_err());
        assert_eq!(reader.position(), 1);
        assert_eq!(Value::parse_from(&mut reader), Ok(Value::Integer(1)));
    }
    for head in [0x41u8, 0x61] {
        let bytes = [head, 0x81, 0x82];
        let mut reader = ByteReader::new(&bytes);
        assert_eq!(Value::parse_from_with_depth(&mut reader, 0), Err(DecodeError::TooDeep));
        assert_eq!(reader.position(), 1);
    }
    let mut reader = ByteReader::new(&[]);
    assert_eq!(Value::parse_from(&mut reader), Err(DecodeError::UnexpectedEof));
    assert_eq!(reader.position(), 0);
}

#[test]
fn values_one_after_another() {
    let mut bytes = Vec::new();
    Value::Integer(2023).serialize_into(&mut bytes);
    Value::Text("cat".to_string()).serialize_into(&mut bytes);
    Value::Bool(true).serialize_into(&mut bytes);
    let mut reader = ByteReader::new(&bytes);
    assert_eq!(Value::parse_from(&mut reader), Ok(Value::Integer(2023)));
    assert_eq!(reader.position(), 3);
    assert_eq!(Value::parse_from(&mut reader), Ok(Value::Text("cat".to_string())));
    assert_eq!(reader.position(), 7);
    assert_eq!(Value::parse_from(&mut reader), Ok(Value::Bool(true)));
    assert_eq!(reader.remaining_len(), 0);
    assert_eq!(Value::parse_from(&mut reader), Err(DecodeError::UnexpectedEof));
}

#[test]
fn serialize_into_appends() {
    let mut out = vec![9, 9];
    Value::Array(vec![Value::Bool(true)]).serialize_into(&mut out);
    assert_eq!(out, [9, 9, 0x41, 0xC1]);
}

#[test]
fn serialize_string_bytes() {
    let mut out = vec![7];
    nota::serialize_string("héllo", &mut out);
    assert_eq!(out, [7, 0x25, 0x68, 0x81, 0x69, 0x6C, 0x6C, 0x6F]);
}

#[test]
fn decimal_float_is_not_supported() {
    let float = DecimalFloat { exponent: -2, coefficient: 314 };
    assert!(!Value::DecimalFloat(float).is_supported());
    assert!(!Value::Array(vec![Value::Bool(true), Value::DecimalFloat(float)]).is_supported());
    assert!(!Value::Record(vec![("pi".to_string(), Value::DecimalFloat(float))]).is_supported());
    assert!(Value::Array(vec![Value::Bool(true), Value::Integer(3)]).is_supported());
    assert!(Value::Record(vec![("pi".to_string(), Value::Integer(3))]).is_supported());
    assert!(Value::Blob(Blob::new()).is_supported());
    assert_eq!(float, DecimalFloat { exponent: -2, coefficient: 314 });
}

#[test]
fn byte_reader() {
    let bytes = [1u8, 2, 3, 4, 5];
    let mut reader = ByteReader::new(&bytes);
    assert_eq!(reader.position(), 0);
    assert_eq!(reader.remaining_len(), 5);
    assert_eq!(reader.read_byte(), Ok(1));
    assert_eq!(reader.read_bytes(3), Ok(vec![2, 3, 4]));
    assert_eq!(reader.position(), 4);
    assert_eq!(reader.read_bytes(2), Err(DecodeError::UnexpectedEof));
    assert_eq!(reader.position(), 4);
    assert_eq!(reader.read_bytes(0), Ok(vec![]));
    assert_eq!(reader.read_byte(), Ok(5));
    assert_eq!(reader.read_byte(), Err(DecodeError::UnexpectedEof));
    assert_eq!(reader.remaining_len(), 0);
}

#[test]
fn blob_from_bytes_and_bits() {
    let blob = Blob::from_vec(vec![0xA5, 0x0F]).unwrap();
    assert_eq!(blob.len(), 16);
    let bits: Vec<bool> = (0..16).map(|i| blob.get(i).unwrap()).collect();
    assert_eq!(
        bits,
        [
            true, false, true, false, false, true, false, true, false, false, false, false, true,
            true, true, true
        ]
    );
    assert_eq!(blob, blob_of(&bits));
    assert_eq!(blob.get(16), None);
    assert_eq!(Blob::new().len(), 0);
    assert_eq!(Blob::from_vec(vec![]).unwrap(), Blob::new());
}

#[test]
fn blob_truncate_and_push() {
    let mut blob = Blob::from_vec(vec![0xFF, 0xFF]).unwrap();
    blob.truncate(20);
    assert_eq!(blob.len(), 16);
    blob.truncate(9);
    assert_eq!(blob.len(), 9);
    assert_eq!(blob, blob_of(&[true; 9]));
    assert!(blob.push(false));
    assert_eq!(blob.len(), 10);
    assert_eq!(blob.get(9), Some(false));
    let mut out = Vec::new();
    blob.pack_into(&mut out);
    assert_eq!(out, [0xFF, 0x80]);
    blob.truncate(0);
    assert_eq!(blob, Blob::new());
}

#[test]
fn blob_clone() {
    let blob = blob_of(&[true, false, false, true, true]);
    let copy = blob.clone();
    assert_eq!(copy, blob);
    assert_eq!(copy.len(), 5);
    let mut out = Vec::new();
    copy.pack_into(&mut out);
    assert_eq!(out, [0x98]);
}

#[test]
fn blob_pack_ignores_what_lies_behind_the_bits() {
    let mut blob = Blob::from_vec(vec![0xFF, 0xFF]).unwrap();
    blob.truncate(3);
    let mut out = vec![0x11];
    blob.pack_into(&mut out);
    assert_eq!(out, [0x11, 0xE0]);
    assert_eq!(encode(&Value::Blob(blob)), [0x03, 0xE0]);
}

#[test]
fn value_clone_and_equality() {
    let value = Value::Array(vec![
        Value::Record(vec![
            ("a".to_string(), Value::Blob(Blob::from_vec(vec![0xF0]).unwrap())),
            ("b".to_string(), Value::Text("☃".to_string())),
        ]),
        Value::Integer(-9),
        Value::Bool(true),
        Value::DecimalFloat(DecimalFloat { exponent: 1, coefficient: 2 }),
    ]);
    let copy = value.clone();
    assert_eq!(copy, value);
    assert_ne!(value, Value::Array(vec![]));
    assert_ne!(Value::Integer(1), Value::Integer(2));
    assert_ne!(Value::Integer(1), Value::Bool(true));
    assert_ne!(Value::Text("a".to_string()), Value::Text("b".to_string()));
    assert_ne!(
        Value::Array(vec![Value::Bool(true), Value::Bool(false)]),
        Value::Array(vec![Value::Bool(false), Value::Bool(true)])
    );
    assert_ne!(
        Value::Record(vec![("a".to_string(), Value::Bool(true))]),
        Value::Record(vec![("b".to_string(), Value::Bool(true))])
    );
    assert_ne!(
        Value::Record(vec![("a".to_string(), Value::Bool(true))]),
        Value::Record(vec![("a".to_string(), Value::Bool(false))])
    );
    assert_ne!(
        Value::DecimalFloat(DecimalFloat { exponent: 1, coefficient: 2 }),
        Value::DecimalFloat(DecimalFloat { exponent: 1, coefficient: 3 })
    );
}

#[test]
fn blob_equality_is_of_bits() {
    let mut long = Blob::from_vec(vec![0xAB, 0xFF]).unwrap();
    long.truncate(8);
    assert_eq!(long, Blob::from_vec(vec![0xAB]).unwrap());
    let mut short = Blob::from_vec(vec![0xAB]).unwrap();
    short.truncate(7);
    assert_ne!(short, Blob::from_vec(vec![0xAB]).unwrap());
    assert_ne!(Blob::from_vec(vec![0xAB]).unwrap(), Blob::from_vec(vec![0xAA]).unwrap());
}

#[test]
fn record_insert_replaces_the_last_of_equal_keys() {
    let mut entries = vec![
        ("a".to_string(), Value::Integer(1)),
        ("b".to_string(), Value::Integer(2)),
        ("a".to_string(), Value::Integer(3)),
    ];
    assert!(!nota::has_distinct_keys(&entries));
    record_insert(&mut entries, "a".to_string(), Value::Integer(4));
    assert_eq!(
        entries,
        vec![
            ("a".to_string(), Value::Integer(1)),
            ("b".to_string(), Value::Integer(2)),
            ("a".to_string(), Value::Integer(4)),
        ]
    );
    assert_eq!(
        Value::Record(entries),
        Value::Record(vec![
            ("b".to_string(), Value::Integer(2)),
            ("a".to_string(), Value::Integer(4)),
        ])
    );
}

#[test]
fn distinct_keys() {
    assert!(nota::has_distinct_keys(&vec![]));
    assert!(nota::has_distinct_keys(&vec![("a".to_string(), Value::Bool(true))]));
    assert!(nota::has_distinct_keys(&vec![
        ("a".to_string(), Value::Bool(true)),
        ("b".to_string(), Value::Bool(true)),
        ("".to_string(), Value::Bool(true)),
    ]));
    assert!(!nota::has_distinct_keys(&vec![
        ("a".to_string(), Value::Bool(true)),
        ("b".to_string(), Value::Bool(true)),
        ("a".to_string(), Value::Bool(false)),
    ]));
}

#[test]
fn well_formed_values() {
    let float = DecimalFloat { exponent: 0, coefficient: 1 };
    assert!(Value::Integer(i128::MIN).is_well_formed());
    assert!(Value::Text("snow ☃".to_string()).is_well_formed());
    assert!(Value::Blob(Blob::from_vec(vec![1, 2, 3]).unwrap()).is_well_formed());
    assert!(Value::Array(vec![Value::Bool(true), Value::Array(vec![])]).is_well_formed());
    assert!(record_of(vec![("a", Value::Bool(true)), ("b", Value::Integer(1))]).is_well_formed());
    assert!(!Value::DecimalFloat(float).is_well_formed());
    assert!(!Value::Array(vec![Value::Bool(true), Value::DecimalFloat(float)]).is_well_formed());
    let twice = Value::Record(vec![
        ("a".to_string(), Value::Bool(true)),
        ("a".to_string(), Value::Bool(true)),
    ]);
    assert!(!twice.is_well_formed());
    assert!(twice.is_supported());
    assert!(!Value::Array(vec![twice]).is_well_formed());
    assert!(!Value::Record(vec![("a".to_string(), Value::DecimalFloat(float))]).is_well_formed());
}

#[test]
fn depth_of_nesting() {
    assert!(Value::Integer(1).is_nested_within(0));
    assert!(Value::Text("a".to_string()).is_nested_within(0));
    assert!(!Value::Array(vec![]).is_nested_within(0));
    assert!(Value::Array(vec![]).is_nested_within(1));
    assert!(!Value::Record(vec![]).is_nested_within(0));
    let two = Value::Array(vec![
        Value::Integer(1),
        Value::Record(vec![("a".to_string(), Value::Bool(true))]),
    ]);
    assert!(!two.is_nested_within(1));
    assert!(two.is_nested_within(2));
    assert!(two.is_nested_within(usize::MAX));
    let mut deep = Value::Bool(false);
    for _ in 0..129 {
        deep = Value::Array(vec![deep]);
    }
    assert!(!deep.is_nested_within(nota::MAX_DEPTH));
    assert!(deep.is_nested_within(129));
    assert_eq!(decode(&encode(&deep)), Err(DecodeError::TooDeep));
}

#[test]
fn duplicate_keys_do_not_come_back() {
    let twice = Value::Record(vec![
        ("a".to_string(), Value::Integer(1)),
        ("a".to_string(), Value::Integer(2)),
    ]);
    let back = decode_all(&encode(&twice));
    assert_eq!(back, Value::Record(vec![("a".to_string(), Value::Integer(2))]));
    assert!(back.is_well_formed());
    assert_eq!(back, twice);
    match back {
        Value::Record(entries) => assert_eq!(entries.len(), 1),
        _ => panic!("not a record"),
    }
}

#[test]
fn records_are_equal_as_mappings() {
    let ab = Value::Record(vec![
        ("a".to_string(), Value::Integer(1)),
        ("b".to_string(), Value::Integer(2)),
    ]);
    let ba = Value::Record(vec![
        ("b".to_string(), Value::Integer(2)),
        ("a".to_string(), Value::Integer(1)),
    ]);
    assert_eq!(ab, ba);
    assert_eq!(ba, ab);
    assert_eq!(Value::Array(vec![ab.clone(), ba.clone()]), Value::Array(vec![ba.clone(), ab.clone()]));
    let nested_ab = Value::Record(vec![("x".to_string(), ab.clone()), ("y".to_string(), Value::Bool(true))]);
    let nested_ba = Value::Record(vec![("y".to_string(), Value::Bool(true)), ("x".to_string(), ba.clone())]);
    assert_eq!(nested_ab, nested_ba);
    let a = Value::Record(vec![("a".to_string(), Value::Integer(1))]);
    assert_ne!(ab, a);
    assert_ne!(a, ab);
    let other = Value::Record(vec![
        ("b".to_string(), Value::Integer(1)),
        ("a".to_string(), Value::Integer(2)),
    ]);
    assert_ne!(ab, other);
    assert_eq!(Value::Record(vec![]), Value::Record(vec![]));
    assert_ne!(Value::Record(vec![]), a);
    assert_ne!(Value::Record(vec![]), Value::Array(vec![]));
    // of two entries with one key the last counts
    let twice = Value::Record(vec![
        ("a".to_string(), Value::Integer(9)),
        ("a".to_string(), Value::Integer(1)),
    ]);
    assert_eq!(twice, a);
    assert_eq!(a, twice);
    assert_ne!(twice, Value::Record(vec![("a".to_string(), Value::Integer(9))]));
    // the bytes keep the order of the entries
    assert_ne!(encode(&ab), encode(&ba));
    assert_eq!(decode_all(&encode(&ba)), ab);
}

#[test]
fn every_part_of_an_encoding_ends_early() {
    let values = vec![
        Value::Bool(true),
        Value::Integer(0),
        Value::Integer(-123456789),
        Value::Integer(i128::MIN),
        Value::Text("snow ☃ and 𓂀".to_string()),
        Value::Blob(blob_of(&[true, false, true, true, false, false, true, false, true, true, true])),
        Value::Array((0..20).map(|i| Value::Integer(i * 37)).collect()),
        Value::Array(vec![Value::Array(vec![Value::Array(vec![]), Value::Text("a".to_string())])]),
        record_of(vec![
            ("name", Value::Text("snow".to_string())),
            ("list", Value::Array(vec![Value::Integer(-5), Value::Bool(true)])),
            ("inner", record_of(vec![("bits", Value::Blob(blob_of(&[true; 17])))])),
        ]),
    ];
    for value in values {
        let bytes = encode(&value);
        for kept in 0..bytes.len() {
            assert_eq!(
                decode(&bytes[..kept]),
                Err(DecodeError::UnexpectedEof),
                "the first {kept} bytes of {bytes:02x?}"
            );
        }
        assert_eq!(decode_all(&bytes), value);
    }
}

#[test]
fn decodable_values() {
    let float = DecimalFloat { exponent: 0, coefficient: 1 };
    let twice = Value::Record(vec![
        ("a".to_string(), Value::Integer(1)),
        ("a".to_string(), Value::Array(vec![Value::Integer(2)])),
    ]);
    assert!(twice.is_decodable());
    assert!(!twice.is_well_formed());
    assert!(Value::Array(vec![twice.clone(), Value::Text("☃".to_string())]).is_decodable());
    assert!(Value::Blob(Blob::from_vec(vec![1, 2, 3]).unwrap()).is_decodable());
    assert!(Value::Integer(i128::MIN).is_decodable());
    assert!(!Value::DecimalFloat(float).is_decodable());
    assert!(!Value::Array(vec![Value::DecimalFloat(float)]).is_decodable());
    assert!(!Value::Record(vec![("a".to_string(), Value::DecimalFloat(float))]).is_decodable());
    let nested = Value::Array(vec![twice.clone(), Value::Record(vec![("x".to_string(), twice)])]);
    assert_eq!(decode_all(&encode(&nested)), nested);
}
