use bitvec::order::Msb0;
use bitvec::vec::BitVec;
use nota::{Blob, ByteReader, Value};

fn blob_of(bits: BitVec<u8, Msb0>) -> Blob {
    let mut blob = Blob::new();
    for bit in bits.iter().by_vals() {
        assert!(blob.push(bit));
    }
    blob
}

fn assert_serializes(val: Value, nota: &[u8]) {
    let mut out = Vec::new();
    val.serialize_into(&mut out);
    if out != nota {
        panic!(
            "Expected {}\n     got {}\n{}",
            nota.iter().map(|n| format!("{n:8b}, ")).collect::<String>(),
            out.iter().map(|n| format!("{n:8b}, ")).collect::<String>(),
            out.iter().map(|n| format!("0x{n:02x}, ")).collect::<String>(),
        );
    }
    let mut reader = ByteReader::new(nota);
    assert_eq!(Value::parse_from(&mut reader).unwrap(), val);
    assert_eq!(reader.position(), nota.len());
}

#[test]
fn integer() {
    assert_serializes(Value::Integer(2023), &[0x90, 0x8F, 0x67]);
    assert_serializes(Value::Integer(0), &[0x80]);
    assert_serializes(Value::Integer(-1), &[0x89]);
    assert_serializes(Value::Integer(0b1), &[0x81]);
    assert_serializes(Value::Integer(0b101110), &[0x90, 0x2e]);
    assert_serializes(Value::Integer(0b1011101111101), &[0x90, 0xae, 0x7d]);
    assert_serializes(Value::Integer(0b101110111110111111), &[0x90, 0x8b, 0xdf, 0x3f]);
    assert_serializes(Value::Integer(0b101110111110111111111), &[0x90, 0xdd, 0xfb, 0x7f]);
    assert_serializes(Value::Integer(0b1001110111110111111111), &[0x91, 0x9d, 0xfb, 0x7f]);
    assert_serializes(
        Value::Integer(i128::MAX),
        &[
            0x91, 0xff, 0xff, 0xff, 0xff, 0xff, 0xff, 0xff, 0xff, 0xff, 0xff, 0xff, 0xff, 0xff,
            0xff, 0xff, 0xff, 0xff, 0x7f,
        ],
    );
}

#[test]
fn bool() {
    assert_serializes(Value::Bool(false), &[0xC0]);
    assert_serializes(Value::Bool(true), &[0xC1]);
}

#[test]
fn text() {
    assert_serializes(Value::Text("cat".into()), &[0x23, 0x63, 0x61, 0x74]);
    assert_serializes(Value::Text("".into()), &[0x20]);
    assert_serializes(
        Value::Text("☃★♲".into()),
        &[0x23, 0xCC, 0x03, 0xCC, 0x05, 0xCC, 0x72],
    );
    assert_serializes(
        Value::Text("𓂀𓃠𓅣𓂻𓂺𓁟𓂑𓃻𓇼𓊽𓂭𓎆𓍢𓏢𓐠".into()),
        &[
            0x2F, 0x84, 0xE1, 0x00, 0x84, 0xE1, 0x60, 0x84, 0xE2, 0x63, 0x84, 0xE1, 0x3B, 0x84,
            0xE1, 0x3A, 0x84, 0xE0, 0x5F, 0x84, 0xE1, 0x11, 0x84, 0xE1, 0x7B, 0x84, 0xE3, 0x7C,
            0x84, 0xE5, 0x3D, 0x84, 0xE1, 0x2D, 0x84, 0xE7, 0x06, 0x84, 0xE6, 0x62, 0x84, 0xE7,
            0x62, 0x84, 0xE8, 0x20,
        ],
    );
}

#[test]
fn array() {
    assert_serializes(
        Value::Array(vec![Value::Bool(false), Value::Integer(2023)]),
        &[0b1000010, 0xC0, 0x90, 0x8F, 0x67],
    );
}

#[test]
fn blob() {
    let mut bitblob = BitVec::new();
    bitblob.extend([0x55_u8]);
    bitblob.push(true);
    bitblob.push(true);
    bitblob.push(false);

    assert_serializes(Value::Blob(blob_of(bitblob)), &[0b1011, 0b1010101, 0b11000000]);
    assert_serializes(
        Value::Blob(blob_of(vec![1u8, 2, 3].try_into().unwrap())),
        &[0b10000, 0b11000, 1, 2, 3],
    );
}

#[test]
fn record() {
    let mut hash = Vec::new();
    hash.push(("Hello".into(), Value::Integer(123456789)));

    assert_serializes(
        Value::Record(hash),
        &[0x61, 0x25, 0x48, 0x65, 0x6c, 0x6c, 0x6f, 0x90, 0xba, 0xef, 0x9a, 0x15],
    );
}
