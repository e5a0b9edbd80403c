//! A codec for a compact, self-describing binary notation of values:
//! booleans, signed integers, bit-level blobs, text, arrays and records.
//!
//! [`Value::serialize_into`] appends the bytes of a value to a buffer, and
//! [`Value::parse_from`] reads one value back from a [`ByteReader`]. What the
//! bytes of a value are is stated by [`encode::encode_value`], and what value
//! bytes hold by [`decode::decode_value`].

pub mod blob;
pub mod decode;
pub mod encode;
pub mod error;
pub mod kim;
pub mod laws;
pub mod preamble;
pub mod reader;
pub mod record;
pub mod value;

pub use crate::blob::Blob;
pub use crate::decode::MAX_DEPTH;
pub use crate::encode::serialize_string;
pub use crate::error::DecodeError;
pub use crate::kim::{read_kim_char, write_kim_char};
pub use crate::preamble::{
    parse_integer,
    parse_len,
    serialize_integer_continuation,
    serialize_signed_preamble,
    serialize_unsigned_preamble,
};
pub use crate::reader::ByteReader;
pub use crate::record::{has_distinct_keys, record_insert};
pub use crate::value::{DecimalFloat, Value, ValueView};
