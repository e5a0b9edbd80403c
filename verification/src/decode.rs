//! Decoding: the value at the front of a byte sequence, and the function that
//! reads it from a [`ByteReader`].

use vstd::prelude::*;
use crate::blob::{byte_len, max_blob_bytes, unpack_bits, Blob};
use crate::error::DecodeError;
use crate::kim::{decode_char, read_kim_char};
use crate::preamble::{
    decode_integer,
    decode_length,
    parse_integer,
    parse_len,
    TAG_ARRAY,
    TAG_BLOB,
    TAG_BOOL,
    TAG_DECIMAL_FLOAT,
    TAG_INTEGER,
    TAG_RECORD,
    TAG_TEXT,
};
use crate::reader::ByteReader;
use crate::record::{record_insert, record_of, record_view};
use crate::value::{item_views, lemma_item_views, Value, ValueView};

verus! {

/// `bytes` without its first `used` bytes; nothing where it has fewer.
pub open spec fn after(bytes: Seq<u8>, used: nat) -> Seq<u8> {
    if used <= bytes.len() {
        bytes.skip(used as int)
    } else {
        Seq::empty()
    }
}

/// A decoded sequence with `prefix` put before it and `used` more bytes
/// counted as read. An error stays as it is.
pub open spec fn prepend<T>(prefix: Seq<T>, used: nat, r: Result<(Seq<T>, nat), DecodeError>)
    -> Result<(Seq<T>, nat), DecodeError> {
    match r {
        Ok((items, more)) => Ok((prefix + items, used + more)),
        Err(e) => Err(e),
    }
}

/// A decoded value with `used` more bytes counted as read.
pub open spec fn further(used: nat, r: Result<(ValueView, nat), DecodeError>) -> Result<
    (ValueView, nat),
    DecodeError,
> {
    match r {
        Ok((value, more)) => Ok((value, used + more)),
        Err(e) => Err(e),
    }
}

/// `count` scalar values read one after another from the front of `bytes`.
/// The first that fails gives its error.
pub open spec fn decode_chars(bytes: Seq<u8>, count: nat) -> Result<(Seq<char>, nat), DecodeError>
    decreases count,
{
    if count == 0 {
        Ok((Seq::empty(), 0nat))
    } else {
        match decode_char(bytes) {
            Err(e) => Err(e),
            Ok((c, used)) => prepend(
                seq![c],
                used,
                decode_chars(after(bytes, used), (count - 1) as nat),
            ),
        }
    }
}

/// The text announced by the header byte `head`: a length in scalar values,
/// then that many scalar values.
pub open spec fn decode_text(head: u8, rest: Seq<u8>) -> Result<(ValueView, nat), DecodeError> {
    match decode_length(head, rest) {
        Err(e) => Err(e),
        Ok((len, used)) => match decode_chars(after(rest, used), len) {
            Err(e) => Err(e),
            Ok((chars, more)) => Ok((ValueView::Text(chars), used + more)),
        },
    }
}

/// The blob announced by the header byte `head`: a length in bits, then as
/// many bytes as hold that many bits. The blob has exactly the announced
/// number of bits; what the last byte holds beyond them is dropped. Fewer
/// bytes than announced are an end-of-input error. A payload of more bytes
/// than a blob can span on this machine is unsupported.
pub open spec fn decode_blob(head: u8, rest: Seq<u8>) -> Result<(ValueView, nat), DecodeError> {
    match decode_length(head, rest) {
        Err(e) => Err(e),
        Ok((len, used)) => {
            let count = byte_len(len);
            if rest.len() < used + count {
                Err(DecodeError::UnexpectedEof)
            } else if count > max_blob_bytes() {
                Err(DecodeError::Unsupported)
            } else {
                Ok(
                    (
                        ValueView::Blob(
                            unpack_bits(rest.subrange(used as int, (used + count) as int)).take(
                                len as int,
                            ),
                        ),
                        used + count,
                    ),
                )
            }
        },
    }
}

/// The truth value in the header byte `head`: its low five bits are 0 for
/// false and 1 for true, and nothing else.
pub open spec fn decode_bool(head: u8) -> Result<(ValueView, nat), DecodeError> {
    if head % 32 == 0 {
        Ok((ValueView::Bool(false), 0nat))
    } else if head % 32 == 1 {
        Ok((ValueView::Bool(true), 0nat))
    } else {
        Err(DecodeError::Unsupported)
    }
}

/// The value at the front of `bytes` and the number of bytes it takes, where
/// arrays and records may be nested `depth` deep and no deeper.
///
/// The top three bits of the first byte are the tag: `000` a blob, `001` a
/// text, `010` an array, `011` a record, `100` an integer, `110` a truth
/// value. The tag `101`, kept for decimal floats, is unsupported, and `111`
/// is a data-validity error. Empty input is an end-of-input error. An array
/// or a record where `depth` is zero is nested too deep; what it holds is
/// decoded with a `depth` of one less.
pub open spec fn decode_value(bytes: Seq<u8>, depth: nat) -> Result<(ValueView, nat), DecodeError>
    decreases bytes.len(), 1nat,
{
    if bytes.len() == 0 {
        Err(DecodeError::UnexpectedEof)
    } else {
        let head = bytes[0];
        let rest = bytes.skip(1);
        let tag = head / 32;
        further(
            1,
            if tag == 0 {
                decode_blob(head, rest)
            } else if tag == 1 {
                decode_text(head, rest)
            } else if tag == 2 {
                if depth == 0 {
                    Err(DecodeError::TooDeep)
                } else {
                    decode_array(head, rest, (depth - 1) as nat)
                }
            } else if tag == 3 {
                if depth == 0 {
                    Err(DecodeError::TooDeep)
                } else {
                    decode_record(head, rest, (depth - 1) as nat)
                }
            } else if tag == 4 {
                match decode_integer(head, rest) {
                    Ok((i, used)) => Ok((ValueView::Integer(i), used)),
                    Err(e) => Err(e),
                }
            } else if tag == 5 {
                Err(DecodeError::Unsupported)
            } else if tag == 6 {
                decode_bool(head)
            } else {
                Err(DecodeError::InvalidData)
            },
        )
    }
}

/// The array announced by the header byte `head`: a length, then that many
/// values, each nested no deeper than `depth`.
pub open spec fn decode_array(head: u8, rest: Seq<u8>, depth: nat) -> Result<
    (ValueView, nat),
    DecodeError,
>
    decreases rest.len() + 1, 0nat,
{
    match decode_length(head, rest) {
        Err(e) => Err(e),
        Ok((count, used)) => match decode_items(after(rest, used), count, depth) {
            Err(e) => Err(e),
            Ok((items, more)) => Ok((ValueView::Array(items), used + more)),
        },
    }
}

/// `count` values read one after another from the front of `bytes`. The
/// first that fails gives its error.
pub open spec fn decode_items(bytes: Seq<u8>, count: nat, depth: nat) -> Result<
    (Seq<ValueView>, nat),
    DecodeError,
>
    decreases bytes.len(), count + 2,
{
    if count == 0 {
        Ok((Seq::empty(), 0nat))
    } else {
        match decode_value(bytes, depth) {
            Err(e) => Err(e),
            Ok((item, used)) => prepend(
                seq![item],
                used,
                decode_items(after(bytes, used), (count - 1) as nat, depth),
            ),
        }
    }
}

/// The record announced by the header byte `head`: a number of entries, then
/// the entries, put into the record in the order read. An entry read later
/// takes the place of an earlier one with the same key. Keys and values are
/// nested no deeper than `depth`.
pub open spec fn decode_record(head: u8, rest: Seq<u8>, depth: nat) -> Result<
    (ValueView, nat),
    DecodeError,
>
    decreases rest.len() + 1, 0nat,
{
    match decode_length(head, rest) {
        Err(e) => Err(e),
        Ok((count, used)) => match decode_entries(after(rest, used), count, depth) {
            Err(e) => Err(e),
            Ok((pairs, more)) => Ok((ValueView::Record(record_of(pairs)), used + more)),
        },
    }
}

/// One entry at the front of `bytes`: two values, the key and the value. A
/// key that is not a text is a data-validity error, whatever stands behind
/// it.
pub open spec fn decode_entry(bytes: Seq<u8>, depth: nat) -> Result<
    ((Seq<char>, ValueView), nat),
    DecodeError,
>
    decreases bytes.len(), 2nat,
{
    match decode_value(bytes, depth) {
        Err(e) => Err(e),
        Ok((key, key_len)) => match key {
            ValueView::Text(name) => match decode_value(after(bytes, key_len), depth) {
                Err(e) => Err(e),
                Ok((value, value_len)) => Ok(((name, value), key_len + value_len)),
            },
            _ => Err(DecodeError::InvalidData),
        },
    }
}

/// `count` entries read one after another from the front of `bytes`. The
/// first that fails gives its error.
pub open spec fn decode_entries(bytes: Seq<u8>, count: nat, depth: nat) -> Result<
    (Seq<(Seq<char>, ValueView)>, nat),
    DecodeError,
>
    decreases bytes.len(), count + 3,
{
    if count == 0 {
        Ok((Seq::empty(), 0nat))
    } else {
        match decode_entry(bytes, depth) {
            Err(e) => Err(e),
            Ok((pair, used)) => prepend(
                seq![pair],
                used,
                decode_entries(after(bytes, used), (count - 1) as nat, depth),
            ),
        }
    }
}

/// `String::push`: appends one scalar value.
pub assume_specification[ String::push ](text: &mut String, c: char)
    ensures
        final(text)@ == old(text)@.push(c),
;

/// Reading one item more moves it from the front of what is still to be read
/// to the end of what has been read.
proof fn lemma_prepend_step<T>(
    prefix: Seq<T>,
    used: nat,
    item: T,
    item_len: nat,
    tail: Result<(Seq<T>, nat), DecodeError>,
)
    ensures
        prepend(prefix, used, prepend(seq![item], item_len, tail)) == prepend(
            prefix.push(item),
            used + item_len,
            tail,
        ),
{
    match tail {
        Ok((items, more)) => {
            assert(prefix + (seq![item] + items) == prefix.push(item) + items);
        },
        Err(_) => {},
    }
}

/// With nothing left to read, what has been read is the result.
proof fn lemma_prepend_done<T>(prefix: Seq<T>, used: nat)
    ensures
        prepend(prefix, used, Ok((Seq::<T>::empty(), 0nat))) == Ok::<
            (Seq<T>, nat),
            DecodeError,
        >((prefix, used)),
        prepend(Seq::<T>::empty(), 0nat, Ok((prefix, used))) == Ok::<(Seq<T>, nat), DecodeError>(
            (prefix, used),
        ),
{
    assert(prefix + Seq::<T>::empty() == prefix);
    assert(Seq::<T>::empty() + prefix == prefix);
}

/// Skipping twice is skipping once by the sum.
proof fn lemma_skip_twice(bytes: Seq<u8>, first: nat, second: nat)
    requires
        first + second <= bytes.len(),
    ensures
        bytes.skip(first as int).skip(second as int) == bytes.skip((first + second) as int),
        after(after(bytes, first), second) == after(bytes, first + second),
        after(bytes, first) == bytes.skip(first as int),
{
}

/// Reads `count` scalar values.
fn parse_chars(reader: &mut ByteReader<'_>, count: usize) -> (r: Result<String, DecodeError>)
    ensures
        final(reader).source() == old(reader).source(),
        final(reader).consumed() >= old(reader).consumed(),
        match decode_chars(old(reader).remaining(), count as nat) {
            Ok((chars, used)) => {
                &&& r matches Ok(text)
                &&& text@ == chars
                &&& used <= old(reader).remaining().len()
                &&& final(reader).remaining() == old(reader).remaining().skip(used as int)
                &&& final(reader).consumed() == old(reader).consumed() + used
            },
            Err(e) => r matches Err(x) && x == e,
        },
{
    let ghost start = reader.remaining();
    let ghost mut used: nat = 0;
    let mut out = String::new();
    let mut i: usize = 0;
    proof {
        assert(start.skip(0) == start);
        match decode_chars(start, count as nat) {
            Ok((chars, n)) => lemma_prepend_done(chars, n),
            Err(_) => {},
        }
    }
    while i < count
        invariant
            i <= count,
            start == old(reader).remaining(),
            reader.source() == old(reader).source(),
            used <= start.len(),
            reader.remaining() == start.skip(used as int),
            reader.consumed() == old(reader).consumed() + used,
            decode_chars(start, count as nat) == prepend(
                out@,
                used,
                decode_chars(reader.remaining(), (count - i) as nat),
            ),
        decreases count - i,
    {
        let ghost current = reader.remaining();
        let c = match read_kim_char(reader) {
            Ok(c) => c,
            Err(e) => {
                return Err(e);
            },
        };
        proof {
            let item_len = decode_char(current)->Ok_0.1;
            lemma_skip_twice(start, used, item_len);
            lemma_prepend_step(
                out@,
                used,
                c,
                item_len,
                decode_chars(reader.remaining(), (count - i - 1) as nat),
            );
            used = used + item_len;
        }
        out.push(c);
        i = i + 1;
    }
    proof {
        lemma_prepend_done(out@, used);
    }
    Ok(out)
}

/// Reads the scalar values of a text whose header byte `preamble` has been
/// consumed.
fn parse_text(preamble: u8, reader: &mut ByteReader<'_>) -> (r: Result<Value, DecodeError>)
    ensures
        final(reader).source() == old(reader).source(),
        final(reader).consumed() >= old(reader).consumed(),
        match decode_text(preamble, old(reader).remaining()) {
            Ok((value, used)) => {
                &&& r matches Ok(v)
                &&& v@ == value
                &&& used <= old(reader).remaining().len()
                &&& final(reader).remaining() == old(reader).remaining().skip(used as int)
                &&& final(reader).consumed() == old(reader).consumed() + used
            },
            Err(e) => r matches Err(x) && x == e,
        },
{
    let len = match parse_len(preamble, reader) {
        Ok(len) => len,
        Err(e) => {
            return Err(e);
        },
    };
    let ghost skipped = decode_length(preamble, old(reader).remaining())->Ok_0.1;
    let ghost start = reader.remaining();
    let text = match parse_chars(reader, len) {
        Ok(text) => text,
        Err(e) => {
            return Err(e);
        },
    };
    proof {
        let used = decode_chars(start, len as nat)->Ok_0.1;
        lemma_skip_twice(old(reader).remaining(), skipped, used);
    }
    Ok(Value::Text(text))
}

/// Reads the payload of a blob whose header byte `preamble` has been
/// consumed.
fn parse_blob(preamble: u8, reader: &mut ByteReader<'_>) -> (r: Result<Value, DecodeError>)
    ensures
        final(reader).source() == old(reader).source(),
        final(reader).consumed() >= old(reader).consumed(),
        match decode_blob(preamble, old(reader).remaining()) {
            Ok((value, used)) => {
                &&& r matches Ok(v)
                &&& v@ == value
                &&& used <= old(reader).remaining().len()
                &&& final(reader).remaining() == old(reader).remaining().skip(used as int)
                &&& final(reader).consumed() == old(reader).consumed() + used
            },
            Err(e) => r matches Err(x) && x == e,
        },
{
    let len = match parse_len(preamble, reader) {
        Ok(len) => len,
        Err(e) => {
            return Err(e);
        },
    };
    let ghost rest = old(reader).remaining();
    let ghost skipped = decode_length(preamble, rest)->Ok_0.1;
    let count = len / 8 + (if len % 8 != 0 {
        1
    } else {
        0
    });
    assert(count == byte_len(len as nat));
    let bytes = match reader.read_bytes(count) {
        Ok(bytes) => bytes,
        Err(e) => {
            return Err(e);
        },
    };
    proof {
        assert(bytes@ == rest.subrange(skipped as int, (skipped + count) as int));
        lemma_skip_twice(rest, skipped, count as nat);
    }
    match Blob::from_vec(bytes) {
        None => Err(DecodeError::Unsupported),
        Some(blob) => {
            let mut blob = blob;
            if len % 8 != 0 {
                blob.truncate(len);
            }
            assert(blob@ == unpack_bits(bytes@).take(len as int));
            Ok(Value::Blob(blob))
        },
    }
}

/// The view of a sequence of values with one more value at its end.
proof fn lemma_item_views_push(items: Seq<Value>, item: Value)
    ensures
        item_views(items.push(item), items.len() + 1) == item_views(items, items.len()).push(
            item@,
        ),
{
    lemma_item_views(items, items.len());
    lemma_item_views(items.push(item), items.len() + 1);
    assert(item_views(items.push(item), items.len() + 1) =~= item_views(items, items.len()).push(
        item@,
    ));
}

/// Whether the header byte `head` alone makes decoding fail: it has the tag
/// kept for decimal floats or the reserved tag, a reserved pattern under the
/// tag of truth values, or the tag of an array or a record where none may be
/// nested.
pub open spec fn fails_at_header(head: u8, depth: nat) -> bool {
    let tag = head / 32;
    ||| tag == 5
    ||| tag == 7
    ||| tag == 6 && head % 32 > 1
    ||| (tag == 2 || tag == 3) && depth == 0
}

/// How deep arrays and records may be nested in what [`Value::parse_from`]
/// reads.
pub const MAX_DEPTH: usize = 128;

impl Value {
    /// Reads one value from `reader`: one header byte, then what its tag
    /// announces. Arrays and records may be nested [`MAX_DEPTH`] deep. On
    /// success the reader stands just behind the value. On failure no value
    /// is returned; the reader has not moved where the input was empty, and
    /// stands behind the header byte where that byte alone made the failure.
    pub fn parse_from(reader: &mut ByteReader<'_>) -> (r: Result<Value, DecodeError>)
        ensures
            final(reader).source() == old(reader).source(),
            final(reader).consumed() >= old(reader).consumed(),
            old(reader).remaining().len() == 0 ==> final(reader).consumed() == old(
                reader,
            ).consumed(),
            old(reader).remaining().len() > 0 && fails_at_header(
                old(reader).remaining()[0],
                MAX_DEPTH as nat,
            ) ==> {
                &&& final(reader).consumed() == old(reader).consumed() + 1
                &&& final(reader).remaining() == old(reader).remaining().skip(1)
            },
            match decode_value(old(reader).remaining(), MAX_DEPTH as nat) {
                Ok((value, used)) => {
                    &&& r matches Ok(v)
                    &&& v@ == value
                    &&& 0 < used <= old(reader).remaining().len()
                    &&& final(reader).remaining() == old(reader).remaining().skip(used as int)
                    &&& final(reader).consumed() == old(reader).consumed() + used
                },
                Err(e) => r matches Err(x) && x == e,
            },
    {
        Value::parse_from_with_depth(reader, MAX_DEPTH)
    }

    /// Reads one value from `reader` as [`Value::parse_from`] does, with
    /// arrays and records nested `depth` deep and no deeper. The calls of
    /// this function nest as deep as the value does, and no deeper than
    /// `depth`.
    pub fn parse_from_with_depth(reader: &mut ByteReader<'_>, depth: usize) -> (r: Result<
        Value,
        DecodeError,
    >)
        ensures
            final(reader).source() == old(reader).source(),
            final(reader).consumed() >= old(reader).consumed(),
            old(reader).remaining().len() == 0 ==> final(reader).consumed() == old(
                reader,
            ).consumed(),
            old(reader).remaining().len() > 0 && fails_at_header(
                old(reader).remaining()[0],
                depth as nat,
            ) ==> {
                &&& final(reader).consumed() == old(reader).consumed() + 1
                &&& final(reader).remaining() == old(reader).remaining().skip(1)
            },
            match decode_value(old(reader).remaining(), depth as nat) {
                Ok((value, used)) => {
                    &&& r matches Ok(v)
                    &&& v@ == value
                    &&& 0 < used <= old(reader).remaining().len()
                    &&& final(reader).remaining() == old(reader).remaining().skip(used as int)
                    &&& final(reader).consumed() == old(reader).consumed() + used
                },
                Err(e) => r matches Err(x) && x == e,
            },
        decreases old(reader).remaining().len(), 1nat,
    {
        let preamble = match reader.read_byte() {
            Ok(byte) => byte,
            Err(e) => {
                return Err(e);
            },
        };
        let ghost bytes = old(reader).remaining();
        let ghost rest = bytes.skip(1);
        proof {
            lemma_header(preamble);
            assert forall|n: nat| n <= rest.len() implies #[trigger] rest.skip(n as int)
                == bytes.skip((1 + n) as int) by {
                lemma_skip_twice(bytes, 1, n);
            }
        }
        let kind = preamble & 0xe0;
        if kind == TAG_BLOB {
            parse_blob(preamble, reader)
        } else if kind == TAG_TEXT {
            parse_text(preamble, reader)
        } else if kind == TAG_ARRAY {
            if depth == 0 {
                Err(DecodeError::TooDeep)
            } else {
                parse_array(preamble, reader, depth - 1)
            }
        } else if kind == TAG_RECORD {
            if depth == 0 {
                Err(DecodeError::TooDeep)
            } else {
                parse_record(preamble, reader, depth - 1)
            }
        } else if kind == TAG_INTEGER {
            match parse_integer(preamble, reader) {
                Ok(i) => Ok(Value::Integer(i)),
                Err(e) => Err(e),
            }
        } else if kind == TAG_DECIMAL_FLOAT {
            Err(DecodeError::Unsupported)
        } else if kind == TAG_BOOL {
            let low = preamble & 0x1f;
            assert(rest.skip(0) == rest);
            if low == 0 {
                Ok(Value::Bool(false))
            } else if low == 1 {
                Ok(Value::Bool(true))
            } else {
                Err(DecodeError::Unsupported)
            }
        } else {
            Err(DecodeError::InvalidData)
        }
    }
}

/// The tag and the low bits of a header byte, by mask.
proof fn lemma_header(b: u8)
    by (bit_vector)
    ensures
        b & 0xe0 == (b / 32) * 32,
        b & 0x1f == b % 32,
{
}

/// Reads `count` values.
fn parse_items(reader: &mut ByteReader<'_>, count: usize, depth: usize) -> (r: Result<
    Vec<Value>,
    DecodeError,
>)
    ensures
        final(reader).source() == old(reader).source(),
        final(reader).consumed() >= old(reader).consumed(),
        match decode_items(old(reader).remaining(), count as nat, depth as nat) {
            Ok((views, used)) => {
                &&& r matches Ok(items)
                &&& item_views(items@, items@.len()) == views
                &&& used <= old(reader).remaining().len()
                &&& final(reader).remaining() == old(reader).remaining().skip(used as int)
                &&& final(reader).consumed() == old(reader).consumed() + used
            },
            Err(e) => r matches Err(x) && x == e,
        },
    decreases old(reader).remaining().len(), 2nat,
{
    let ghost start = reader.remaining();
    let ghost mut used: nat = 0;
    let mut out: Vec<Value> = Vec::new();
    let mut i: usize = 0;
    proof {
        assert(start.skip(0) == start);
        match decode_items(start, count as nat, depth as nat) {
            Ok((views, n)) => lemma_prepend_done(views, n),
            Err(_) => {},
        }
    }
    while i < count
        invariant
            i <= count,
            start == old(reader).remaining(),
            reader.source() == old(reader).source(),
            used <= start.len(),
            reader.remaining() == start.skip(used as int),
            reader.consumed() == old(reader).consumed() + used,
            decode_items(start, count as nat, depth as nat) == prepend(
                item_views(out@, out@.len()),
                used,
                decode_items(reader.remaining(), (count - i) as nat, depth as nat),
            ),
        decreases count - i,
    {
        let ghost current = reader.remaining();
        let item = match Value::parse_from_with_depth(reader, depth) {
            Ok(item) => item,
            Err(e) => {
                return Err(e);
            },
        };
        proof {
            let item_len = decode_value(current, depth as nat)->Ok_0.1;
            lemma_skip_twice(start, used, item_len);
            lemma_prepend_step(
                item_views(out@, out@.len()),
                used,
                item@,
                item_len,
                decode_items(reader.remaining(), (count - i - 1) as nat, depth as nat),
            );
            lemma_item_views_push(out@, item);
            used = used + item_len;
        }
        out.push(item);
        i = i + 1;
    }
    proof {
        lemma_prepend_done(item_views(out@, out@.len()), used);
    }
    Ok(out)
}

/// Reads the items of an array whose header byte `preamble` has been
/// consumed.
fn parse_array(preamble: u8, reader: &mut ByteReader<'_>, depth: usize) -> (r: Result<
    Value,
    DecodeError,
>)
    ensures
        final(reader).source() == old(reader).source(),
        final(reader).consumed() >= old(reader).consumed(),
        match decode_array(preamble, old(reader).remaining(), depth as nat) {
            Ok((value, used)) => {
                &&& r matches Ok(v)
                &&& v@ == value
                &&& used <= old(reader).remaining().len()
                &&& final(reader).remaining() == old(reader).remaining().skip(used as int)
                &&& final(reader).consumed() == old(reader).consumed() + used
            },
            Err(e) => r matches Err(x) && x == e,
        },
    decreases old(reader).remaining().len() + 1, 0nat,
{
    let len = match parse_len(preamble, reader) {
        Ok(len) => len,
        Err(e) => {
            return Err(e);
        },
    };
    let ghost skipped = decode_length(preamble, old(reader).remaining())->Ok_0.1;
    let ghost start = reader.remaining();
    let items = match parse_items(reader, len, depth) {
        Ok(items) => items,
        Err(e) => {
            return Err(e);
        },
    };
    proof {
        let used = decode_items(start, len as nat, depth as nat)->Ok_0.1;
        lemma_skip_twice(old(reader).remaining(), skipped, used);
    }
    Ok(Value::Array(items))
}

/// Reads `count` entries into a record.
fn parse_entries(reader: &mut ByteReader<'_>, count: usize, depth: usize) -> (r: Result<
    Vec<(String, Value)>,
    DecodeError,
>)
    ensures
        final(reader).source() == old(reader).source(),
        final(reader).consumed() >= old(reader).consumed(),
        match decode_entries(old(reader).remaining(), count as nat, depth as nat) {
            Ok((pairs, used)) => {
                &&& r matches Ok(entries)
                &&& record_view(entries) == record_of(pairs)
                &&& used <= old(reader).remaining().len()
                &&& final(reader).remaining() == old(reader).remaining().skip(used as int)
                &&& final(reader).consumed() == old(reader).consumed() + used
            },
            Err(e) => r matches Err(x) && x == e,
        },
    decreases old(reader).remaining().len(), 2nat,
{
    let ghost start = reader.remaining();
    let ghost mut used: nat = 0;
    let ghost mut pairs: Seq<(Seq<char>, ValueView)> = Seq::empty();
    let mut out: Vec<(String, Value)> = Vec::new();
    let mut i: usize = 0;
    proof {
        assert(start.skip(0) == start);
        match decode_entries(start, count as nat, depth as nat) {
            Ok((all, n)) => lemma_prepend_done(all, n),
            Err(_) => {},
        }
    }
    while i < count
        invariant
            i <= count,
            start == old(reader).remaining(),
            reader.source() == old(reader).source(),
            used <= start.len(),
            reader.remaining() == start.skip(used as int),
            reader.consumed() == old(reader).consumed() + used,
            record_view(out) == record_of(pairs),
            decode_entries(start, count as nat, depth as nat) == prepend(
                pairs,
                used,
                decode_entries(reader.remaining(), (count - i) as nat, depth as nat),
            ),
        decreases count - i,
    {
        let ghost current = reader.remaining();
        let ghost entry = decode_entry(current, depth as nat);
        let key = match Value::parse_from_with_depth(reader, depth) {
            Ok(key) => key,
            Err(e) => {
                return Err(e);
            },
        };
        let ghost key_len = decode_value(current, depth as nat)->Ok_0.1;
        proof {
            lemma_skip_twice(current, key_len, 0);
        }
        let name = match key {
            Value::Text(name) => name,
            _ => {
                return Err(DecodeError::InvalidData);
            },
        };
        let value = match Value::parse_from_with_depth(reader, depth) {
            Ok(value) => value,
            Err(e) => {
                return Err(e);
            },
        };
        let ghost value_len = decode_value(after(current, key_len), depth as nat)->Ok_0.1;
        proof {
            lemma_skip_twice(current, key_len, value_len);
            lemma_skip_twice(start, used, key_len + value_len);
            lemma_prepend_step(
                pairs,
                used,
                (name@, value@),
                key_len + value_len,
                decode_entries(reader.remaining(), (count - i - 1) as nat, depth as nat),
            );
            let longer = pairs.push((name@, value@));
            assert(longer.drop_last() == pairs);
            used = used + key_len + value_len;
            pairs = longer;
        }
        record_insert(&mut out, name, value);
        i = i + 1;
    }
    proof {
        lemma_prepend_done(pairs, used);
    }
    Ok(out)
}

/// Reads the entries of a record whose header byte `preamble` has been
/// consumed.
fn parse_record(preamble: u8, reader: &mut ByteReader<'_>, depth: usize) -> (r: Result<
    Value,
    DecodeError,
>)
    ensures
        final(reader).source() == old(reader).source(),
        final(reader).consumed() >= old(reader).consumed(),
        match decode_record(preamble, old(reader).remaining(), depth as nat) {
            Ok((value, used)) => {
                &&& r matches Ok(v)
                &&& v@ == value
                &&& used <= old(reader).remaining().len()
                &&& final(reader).remaining() == old(reader).remaining().skip(used as int)
                &&& final(reader).consumed() == old(reader).consumed() + used
            },
            Err(e) => r matches Err(x) && x == e,
        },
    decreases old(reader).remaining().len() + 1, 0nat,
{
    let len = match parse_len(preamble, reader) {
        Ok(len) => len,
        Err(e) => {
            return Err(e);
        },
    };
    let ghost skipped = decode_length(preamble, old(reader).remaining())->Ok_0.1;
    let ghost start = reader.remaining();
    let entries = match parse_entries(reader, len, depth) {
        Ok(entries) => entries,
        Err(e) => {
            return Err(e);
        },
    };
    proof {
        let used = decode_entries(start, len as nat, depth as nat)->Ok_0.1;
        lemma_skip_twice(old(reader).remaining(), skipped, used);
    }
    Ok(Value::Record(entries))
}

} // verus!
