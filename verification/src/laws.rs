//! What holds of encoding and decoding together.

use vstd::prelude::*;
use crate::blob::{
    bit_of,
    byte_len,
    lemma_unpack_pack,
    max_blob_bytes,
    pack_bits,
};
use crate::decode::{
    after,
    prepend,
    decode_array,
    decode_blob,
    decode_chars,
    decode_entries,
    decode_entry,
    decode_items,
    decode_record,
    decode_text,
    decode_value,
    MAX_DEPTH,
};
use crate::encode::{
    encode_entries,
    encode_items,
    encode_text,
    encode_value,
    kim_string,
};
use crate::error::DecodeError;
use crate::kim::{decode_char, kim_bytes, lemma_char_cut, lemma_char_round_trip};
use crate::preamble::{
    decode_integer,
    decode_length,
    lemma_integer_cut,
    lemma_integer_round_trip,
    lemma_length_cut,
    lemma_length_round_trip,
    lemma_negation_flips_sign_bit,
    lemma_zero_is_one_byte,
    signed_preamble,
    unsigned_preamble,
    TAG_ARRAY,
    TAG_BLOB,
    TAG_INTEGER,
    TAG_RECORD,
    TAG_TEXT,
};
use crate::record::{
    key_index,
    lemma_key_index,
    lemma_key_index_by_keys,
    lemma_record_of_lookup,
    record_of,
};
use crate::value::{distinct_keys, ValueView};

verus! {

/// The round trip: decoding the bytes of a value gives the value back, and
/// takes all of the bytes. This holds of every well-formed value in which
/// arrays and records are nested no deeper than decoding follows them.
pub proof fn lemma_round_trip(v: ValueView)
    requires
        v.well_formed(),
        v.nested_within(MAX_DEPTH as nat),
    ensures
        decode_value(encode_value(v), MAX_DEPTH as nat) == Ok::<(ValueView, nat), DecodeError>(
            (v, encode_value(v).len()),
        ),
{
    lemma_round_trip_with_rest(v, Seq::empty(), MAX_DEPTH as nat);
    assert(encode_value(v) + Seq::<u8>::empty() == encode_value(v));
}

/// Decoding the bytes of a value gives the value back and takes exactly those
/// bytes, whatever follows them. This holds of every well-formed value that
/// is nested no deeper than the decoder may go.
pub proof fn lemma_round_trip_with_rest(v: ValueView, rest: Seq<u8>, depth: nat)
    requires
        v.well_formed(),
        v.nested_within(depth),
    ensures
        encode_value(v).len() > 0,
        decode_value(encode_value(v) + rest, depth) == Ok::<(ValueView, nat), DecodeError>(
            (v, encode_value(v).len()),
        ),
    decreases v, 0nat,
{
    match v {
        ValueView::Blob(bits) => {
            lemma_blob_round_trip(bits, rest, depth);
        },
        ValueView::Text(chars) => {
            lemma_text_value_round_trip(chars, rest, depth);
        },
        ValueView::Array(items) => {
            let inner = (depth - 1) as nat;
            lemma_items_round_trip(items, items.len(), rest, inner);
            assert(items.take(items.len() as int) == items);
            lemma_array_framing(items, encode_items(items, items.len()), rest, inner);
        },
        ValueView::Record(entries) => {
            let inner = (depth - 1) as nat;
            lemma_entries_round_trip(entries, entries.len(), rest, inner);
            assert(entries.take(entries.len() as int) == entries);
            lemma_record_framing(entries, encode_entries(entries, entries.len()), rest, inner);
            lemma_record_of_distinct_entries(entries);
        },
        ValueView::Integer(i) => {
            lemma_integer_value_round_trip(i, rest, depth);
        },
        ValueView::DecimalFloat(_) => {},
        ValueView::Bool(b) => {
            lemma_bool_round_trip(b, rest, depth);
        },
    }
}

/// What decodes is well formed and nested no deeper than allowed, and the
/// bytes read for it are there: no value comes out of input that ends before
/// the value does.
pub proof fn lemma_decoded_is_well_formed(bytes: Seq<u8>, depth: nat)
    ensures
        decode_value(bytes, depth) matches Ok((value, used)) ==> {
            &&& value.well_formed()
            &&& value.nested_within(depth)
            &&& 0 < used <= bytes.len()
        },
    decreases bytes.len(), 1nat,
{
    if bytes.len() > 0 {
        let head = bytes[0];
        let rest = bytes.skip(1);
        let tag = head / 32;
        lemma_decoded_length(head, rest);
        if tag == 0 {
            lemma_blob_exact(head, rest);
        } else if tag == 1 {
            match decode_length(head, rest) {
                Ok((len, skipped)) => lemma_decoded_chars(after(rest, skipped), len),
                Err(_) => {},
            }
        } else if tag == 2 && depth > 0 {
            match decode_length(head, rest) {
                Ok((len, skipped)) => lemma_decoded_items(
                    after(rest, skipped),
                    len,
                    (depth - 1) as nat,
                ),
                Err(_) => {},
            }
        } else if tag == 3 && depth > 0 {
            match decode_length(head, rest) {
                Ok((len, skipped)) => {
                    let tail = after(rest, skipped);
                    lemma_decoded_entries(tail, len, (depth - 1) as nat);
                    match decode_entries(tail, len, (depth - 1) as nat) {
                        Ok((pairs, used)) => {
                            lemma_record_of_entries(pairs);
                            crate::record::lemma_record_of_distinct(pairs);
                        },
                        Err(_) => {},
                    }
                },
                Err(_) => {},
            }
        } else if tag == 4 {
            lemma_decoded_integer(head, rest);
        }
    }
}

/// Every value that decodes has bytes that decode to it: encoding what came
/// out and decoding that gives the same value again.
pub proof fn lemma_decoded_round_trip(bytes: Seq<u8>, depth: nat)
    ensures
        decode_value(bytes, depth) matches Ok((value, used)) ==> decode_value(
            encode_value(value),
            depth,
        ) == Ok::<(ValueView, nat), DecodeError>((value, encode_value(value).len())),
{
    lemma_decoded_is_well_formed(bytes, depth);
    match decode_value(bytes, depth) {
        Ok((value, used)) => {
            lemma_round_trip_with_rest(value, Seq::empty(), depth);
            assert(encode_value(value) + Seq::<u8>::empty() == encode_value(value));
        },
        Err(_) => {},
    }
}

/// The round trip of every value that has bytes: decoding the bytes of a
/// value takes exactly those bytes, whatever follows them, and gives a value
/// with the same content. Of a key that a record holds more than once, the
/// last entry comes back.
pub proof fn lemma_round_trip_of_content(v: ValueView, rest: Seq<u8>, depth: nat)
    requires
        v.decodable(),
        v.nested_within(depth),
    ensures
        decode_value(encode_value(v) + rest, depth) matches Ok((back, used)) && used
            == encode_value(v).len() && back.same_as(v),
    decreases v, 0nat,
{
    match v {
        ValueView::Blob(bits) => {
            lemma_blob_round_trip(bits, rest, depth);
        },
        ValueView::Text(chars) => {
            lemma_text_value_round_trip(chars, rest, depth);
        },
        ValueView::Array(items) => {
            let inner = (depth - 1) as nat;
            let payload = encode_items(items, items.len());
            lemma_content_of_items(items, items.len(), rest, inner);
            let backs = decode_items(payload + rest, items.len(), inner)->Ok_0.0;
            lemma_array_framing(backs, payload, rest, inner);
        },
        ValueView::Record(entries) => {
            let inner = (depth - 1) as nat;
            let payload = encode_entries(entries, entries.len());
            lemma_content_of_entries(entries, entries.len(), rest, inner);
            let pairs = decode_entries(payload + rest, entries.len(), inner)->Ok_0.0;
            lemma_record_framing(pairs, payload, rest, inner);
            lemma_record_of_same(pairs, entries);
        },
        ValueView::Integer(i) => {
            lemma_integer_value_round_trip(i, rest, depth);
        },
        ValueView::DecimalFloat(_) => {},
        ValueView::Bool(b) => {
            lemma_bool_round_trip(b, rest, depth);
        },
    }
}

/// Decoding the bytes of the first `count` of `items` gives as many values,
/// each with the content of its item.
pub proof fn lemma_content_of_items(items: Seq<ValueView>, count: nat, rest: Seq<u8>, depth: nat)
    requires
        count <= items.len(),
        forall|i: int| 0 <= i < items.len() ==> (#[trigger] items[i]).decodable(),
        forall|i: int| 0 <= i < items.len() ==> (#[trigger] items[i]).nested_within(depth),
    ensures
        decode_items(encode_items(items, count) + rest, count, depth) matches Ok((backs, used)) && {
            &&& used == encode_items(items, count).len()
            &&& backs.len() == count
            &&& forall|i: int| 0 <= i < count ==> (#[trigger] backs[i]).same_as(items[i])
        },
    decreases items, count,
{
    if count > 0 {
        let before = encode_items(items, (count - 1) as nat);
        let last = encode_value(items[count - 1]);
        lemma_append_bytes(before, last, rest);
        lemma_content_of_items(items, (count - 1) as nat, last + rest, depth);
        lemma_items_one_more(before + last + rest, (count - 1) as nat, depth);
        lemma_round_trip_of_content(items[count - 1], rest, depth);
    }
}

/// Decoding the bytes of the first `count` of `entries` gives as many
/// entries, each with the key of its entry and a value with the content of
/// its value.
pub proof fn lemma_content_of_entries(
    entries: Seq<(Seq<char>, ValueView)>,
    count: nat,
    rest: Seq<u8>,
    depth: nat,
)
    requires
        count <= entries.len(),
        forall|i: int| 0 <= i < entries.len() ==> (#[trigger] entries[i]).1.decodable(),
        forall|i: int| 0 <= i < entries.len() ==> (#[trigger] entries[i]).1.nested_within(depth),
        forall|i: int| 0 <= i < entries.len() ==> (#[trigger] entries[i]).0.len() <= usize::MAX,
    ensures
        decode_entries(encode_entries(entries, count) + rest, count, depth) matches Ok(
            (pairs, used),
        ) && {
            &&& used == encode_entries(entries, count).len()
            &&& pairs.len() == count
            &&& forall|i: int| 0 <= i < count ==> (#[trigger] pairs[i]).0 == entries[i].0
            &&& forall|i: int| 0 <= i < count ==> (#[trigger] pairs[i]).1.same_as(entries[i].1)
        },
    decreases entries, count,
{
    if count > 0 {
        let before = encode_entries(entries, (count - 1) as nat);
        let key = encode_text(entries[count - 1].0);
        let value = encode_value(entries[count - 1].1);
        lemma_append_bytes(before, key + value, rest);
        lemma_content_of_entries(entries, (count - 1) as nat, key + value + rest, depth);
        lemma_entries_one_more(before + (key + value) + rest, (count - 1) as nat, depth);
        lemma_text_value_round_trip(entries[count - 1].0, value + rest, depth);
        lemma_round_trip_of_content(entries[count - 1].1, rest, depth);
        let back = decode_value(value + rest, depth)->Ok_0.0;
        lemma_entry_framing(entries[count - 1].0, back, key, value, rest, depth);
    }
}

/// A record built by insertion from entries has the content of a record that
/// holds entries with the same keys and values of the same content.
pub proof fn lemma_record_of_same(
    pairs: Seq<(Seq<char>, ValueView)>,
    entries: Seq<(Seq<char>, ValueView)>,
)
    requires
        pairs.len() == entries.len(),
        forall|i: int| 0 <= i < pairs.len() ==> (#[trigger] pairs[i]).0 == entries[i].0,
        forall|i: int| 0 <= i < pairs.len() ==> (#[trigger] pairs[i]).1.same_as(entries[i].1),
    ensures
        ValueView::Record(record_of(pairs)).same_as(ValueView::Record(entries)),
{
    let built = record_of(pairs);
    assert forall|i: int| 0 <= i < built.len() implies key_index(
        entries,
        (#[trigger] built[i]).0,
    ) is Some by {
        let key = built[i].0;
        lemma_key_index(built, key);
        lemma_record_of_lookup(pairs, key);
        lemma_key_index_by_keys(pairs, entries, key);
    }
    assert forall|j: int| 0 <= j < entries.len() implies key_index(
        built,
        (#[trigger] entries[j]).0,
    ) is Some by {
        let key = entries[j].0;
        assert(pairs[j].0 == key);
        lemma_key_index(pairs, key);
        lemma_record_of_lookup(pairs, key);
    }
    assert forall|i: int, j: int|
        0 <= i < built.len() && 0 <= j < entries.len() && key_index(
            built,
            (#[trigger] built[i]).0,
        ) == Some(i) && key_index(entries, (#[trigger] entries[j]).0) == Some(j) && built[i].0
            == entries[j].0 implies built[i].1.same_as(entries[j].1) by {
        let key = built[i].0;
        lemma_record_of_lookup(pairs, key);
        lemma_key_index_by_keys(pairs, entries, key);
        assert(pairs[j].1.same_as(entries[j].1));
    }
}

/// A well-formed value has bytes: it is one of those whose content comes
/// back from them.
pub proof fn lemma_well_formed_is_decodable(v: ValueView)
    requires
        v.well_formed(),
    ensures
        v.decodable(),
    decreases v,
{
    match v {
        ValueView::Array(items) => {
            assert forall|i: int| 0 <= i < items.len() implies (#[trigger] items[i]).decodable() by {
                lemma_well_formed_is_decodable(items[i]);
            }
        },
        ValueView::Record(entries) => {
            assert forall|i: int| 0 <= i < entries.len() implies (
            #[trigger] entries[i]).1.decodable() by {
                lemma_well_formed_is_decodable(entries[i].1);
            }
        },
        _ => {},
    }
}

/// The bytes of a value, cut short anywhere, are input that ends early: no
/// value comes out of a part of an encoding, at any depth of nesting.
pub proof fn lemma_cut_short(v: ValueView, kept: nat, depth: nat)
    requires
        v.well_formed(),
        v.nested_within(depth),
        kept < encode_value(v).len(),
    ensures
        decode_value(encode_value(v).take(kept as int), depth) == Err::<
            (ValueView, nat),
            DecodeError,
        >(DecodeError::UnexpectedEof),
    decreases v, 0nat,
{
    let eof = Err::<(ValueView, nat), DecodeError>(DecodeError::UnexpectedEof);
    match v {
        ValueView::Blob(bits) => {
            lemma_blob_cut(bits, kept, depth);
        },
        ValueView::Text(chars) => {
            lemma_text_cut(chars, kept, depth);
        },
        ValueView::Array(items) => {
            let preamble = unsigned_preamble(TAG_ARRAY, items.len());
            let payload = encode_items(items, items.len());
            let inner = (depth - 1) as nat;
            lemma_take_concat(preamble, payload, kept);
            if kept >= preamble.len() {
                lemma_items_cut(items, items.len(), (kept - preamble.len()) as nat, inner);
            }
            lemma_container_cut(
                TAG_ARRAY,
                items.len(),
                payload,
                kept,
                inner,
            );
        },
        ValueView::Record(entries) => {
            let preamble = unsigned_preamble(TAG_RECORD, entries.len());
            let payload = encode_entries(entries, entries.len());
            let inner = (depth - 1) as nat;
            lemma_take_concat(preamble, payload, kept);
            if kept >= preamble.len() {
                lemma_entries_cut(entries, entries.len(), (kept - preamble.len()) as nat, inner);
            }
            lemma_container_cut(
                TAG_RECORD,
                entries.len(),
                payload,
                kept,
                inner,
            );
        },
        ValueView::Integer(i) => {
            if kept > 0 {
                lemma_integer_cut(TAG_INTEGER, i, kept);
            }
        },
        ValueView::DecimalFloat(_) => {},
        ValueView::Bool(_) => {},
    }
}

/// The bytes of the first `count` of `items`, cut short, are input that ends
/// early.
pub proof fn lemma_items_cut(items: Seq<ValueView>, count: nat, kept: nat, depth: nat)
    requires
        count <= items.len(),
        forall|i: int| 0 <= i < items.len() ==> (#[trigger] items[i]).well_formed(),
        forall|i: int| 0 <= i < items.len() ==> (#[trigger] items[i]).nested_within(depth),
        kept < encode_items(items, count).len(),
    ensures
        decode_items(encode_items(items, count).take(kept as int), count, depth) == Err::<
            (Seq<ValueView>, nat),
            DecodeError,
        >(DecodeError::UnexpectedEof),
    decreases items, count,
{
    let before = encode_items(items, (count - 1) as nat);
    let last = encode_value(items[count - 1]);
    let cut = encode_items(items, count).take(kept as int);
    lemma_take_concat(before, last, kept);
    lemma_items_one_more(cut, (count - 1) as nat, depth);
    if kept < before.len() {
        lemma_items_cut(items, (count - 1) as nat, kept, depth);
    } else {
        let rest = last.take(kept - before.len());
        lemma_items_round_trip(items, (count - 1) as nat, rest, depth);
        assert(after(before + rest, before.len()) == rest);
        lemma_cut_short(items[count - 1], (kept - before.len()) as nat, depth);
    }
}

/// The bytes of the first `count` of `entries`, cut short, are input that
/// ends early.
pub proof fn lemma_entries_cut(
    entries: Seq<(Seq<char>, ValueView)>,
    count: nat,
    kept: nat,
    depth: nat,
)
    requires
        count <= entries.len(),
        forall|i: int| 0 <= i < entries.len() ==> (#[trigger] entries[i]).1.well_formed(),
        forall|i: int| 0 <= i < entries.len() ==> (#[trigger] entries[i]).1.nested_within(depth),
        forall|i: int| 0 <= i < entries.len() ==> (#[trigger] entries[i]).0.len() <= usize::MAX,
        kept < encode_entries(entries, count).len(),
    ensures
        decode_entries(encode_entries(entries, count).take(kept as int), count, depth) == Err::<
            (Seq<(Seq<char>, ValueView)>, nat),
            DecodeError,
        >(DecodeError::UnexpectedEof),
    decreases entries, count,
{
    let before = encode_entries(entries, (count - 1) as nat);
    let key = encode_text(entries[count - 1].0);
    let value = encode_value(entries[count - 1].1);
    let cut = encode_entries(entries, count).take(kept as int);
    lemma_take_concat(before, key + value, kept);
    lemma_entries_one_more(cut, (count - 1) as nat, depth);
    if kept < before.len() {
        lemma_entries_cut(entries, (count - 1) as nat, kept, depth);
    } else {
        let here = (kept - before.len()) as nat;
        let rest = (key + value).take(here as int);
        lemma_entries_round_trip(entries, (count - 1) as nat, rest, depth);
        assert(after(before + rest, before.len()) == rest);
        lemma_take_concat(key, value, here);
        if here < key.len() {
            lemma_text_cut(entries[count - 1].0, here, depth);
        } else {
            let behind = value.take(here - key.len());
            lemma_text_value_round_trip(entries[count - 1].0, behind, depth);
            assert(after(key + behind, key.len()) == behind);
            lemma_cut_short(entries[count - 1].1, (here - key.len()) as nat, depth);
        }
        assert(decode_entry(rest, depth) == Err::<((Seq<char>, ValueView), nat), DecodeError>(
            DecodeError::UnexpectedEof,
        ));
    }
}

/// Two well-formed values with the same bytes are the same value.
pub proof fn lemma_encoding_is_injective(a: ValueView, b: ValueView, depth: nat)
    requires
        a.well_formed(),
        b.well_formed(),
        a.nested_within(depth),
        b.nested_within(depth),
        encode_value(a) == encode_value(b),
    ensures
        a == b,
{
    lemma_round_trip_with_rest(a, Seq::empty(), depth);
    lemma_round_trip_with_rest(b, Seq::empty(), depth);
}

/// Every value has the same content as itself.
pub proof fn lemma_same_as_itself(v: ValueView)
    ensures
        v.same_as(v),
    decreases v,
{
    match v {
        ValueView::Array(items) => {
            assert forall|i: int| 0 <= i < items.len() implies (#[trigger] items[i]).same_as(
                items[i],
            ) by {
                lemma_same_as_itself(items[i]);
            }
        },
        ValueView::Record(entries) => {
            assert forall|i: int| 0 <= i < entries.len() implies key_index(
                entries,
                (#[trigger] entries[i]).0,
            ) is Some by {
                lemma_key_index(entries, entries[i].0);
            }
            assert forall|i: int, j: int|
                0 <= i < entries.len() && 0 <= j < entries.len() && key_index(
                    entries,
                    (#[trigger] entries[i]).0,
                ) == Some(i) && key_index(entries, (#[trigger] entries[j]).0) == Some(j)
                    && entries[i].0 == entries[j].0 implies entries[i].1.same_as(
                entries[j].1,
            ) by {
                lemma_same_as_itself(entries[i].1);
            }
        },
        _ => {},
    }
}

/// Having the same content goes both ways.
pub proof fn lemma_same_as_both_ways(a: ValueView, b: ValueView)
    requires
        a.same_as(b),
    ensures
        b.same_as(a),
    decreases a,
{
    match a {
        ValueView::Array(items) => {
            let others = b->Array_0;
            assert forall|i: int| 0 <= i < others.len() implies (#[trigger] others[i]).same_as(
                items[i],
            ) by {
                lemma_same_as_both_ways(items[i], others[i]);
            }
        },
        ValueView::Record(entries) => {
            let others = b->Record_0;
            assert forall|j: int, i: int|
                0 <= j < others.len() && 0 <= i < entries.len() && key_index(
                    others,
                    (#[trigger] others[j]).0,
                ) == Some(j) && key_index(entries, (#[trigger] entries[i]).0) == Some(i)
                    && others[j].0 == entries[i].0 implies others[j].1.same_as(entries[i].1) by {
                lemma_same_as_both_ways(entries[i].1, others[j].1);
            }
        },
        _ => {},
    }
}

/// Zero is the one byte `0x80`: the integer tag with neither a sign nor a
/// continuation.
pub proof fn lemma_zero()
    ensures
        encode_value(ValueView::Integer(0)) == seq![0x80u8],
{
    lemma_zero_is_one_byte(TAG_INTEGER);
}

/// A number above zero and its negation have bytes of one length that differ
/// in one bit, the sign bit of the header byte, which the negation has and the
/// number has not.
pub proof fn lemma_sign(v: int)
    requires
        v > 0,
    ensures
        encode_value(ValueView::Integer(-v)).len() == encode_value(ValueView::Integer(v)).len(),
        encode_value(ValueView::Integer(-v)).skip(1) == encode_value(ValueView::Integer(v)).skip(
            1,
        ),
        encode_value(ValueView::Integer(-v))[0] == encode_value(ValueView::Integer(v))[0] | 0x08,
        encode_value(ValueView::Integer(v))[0] & 0x08 == 0,
{
    lemma_negation_flips_sign_bit(TAG_INTEGER, v);
    assert(0x80u8 & 0x08 == 0) by (bit_vector);
}

/// A decoded blob has exactly as many bits as its preamble announces: the
/// first bits of its payload, most significant bit of each byte first, and
/// none of what a last partial byte holds beyond them.
pub proof fn lemma_blob_exact(head: u8, rest: Seq<u8>)
    ensures
        decode_blob(head, rest) matches Ok((value, used)) ==> {
            &&& value matches ValueView::Blob(bits)
            &&& decode_length(head, rest) matches Ok((len, skipped))
            &&& bits.len() == len
            &&& used == skipped + byte_len(len)
            &&& used <= rest.len()
            &&& forall|i: int| 0 <= i < len ==> bits[i] == bit_of(rest[skipped + i / 8], i % 8)
        },
{
}

/// An array or a record that announces more than follows does not decode:
/// where one decodes, an array has a byte and more for each item that its
/// preamble announces, and a record two bytes and more for each entry.
pub proof fn lemma_announced_is_there(head: u8, rest: Seq<u8>, depth: nat)
    ensures
        decode_array(head, rest, depth) matches Ok((value, used)) ==> {
            &&& decode_length(head, rest) matches Ok((count, skipped))
            &&& value matches ValueView::Array(items)
            &&& items.len() == count
            &&& skipped + count <= used <= rest.len()
        },
        decode_record(head, rest, depth) matches Ok((value, used)) ==> {
            &&& decode_length(head, rest) matches Ok((count, skipped))
            &&& skipped + 2 * count <= used <= rest.len()
        },
{
    lemma_decoded_length(head, rest);
    match decode_length(head, rest) {
        Ok((count, skipped)) => {
            lemma_decoded_items(after(rest, skipped), count, depth);
            lemma_decoded_entries(after(rest, skipped), count, depth);
        },
        Err(_) => {},
    }
}

/// A record with a key that is not a text does not decode: where the entries
/// before one decode and its key slot holds a value that is no text, reading
/// the entries is a data-validity error, whatever follows the key.
pub proof fn lemma_record_key_must_be_text(bytes: Seq<u8>, before: nat, count: nat, depth: nat)
    requires
        before < count,
        decode_entries(bytes, before, depth) matches Ok((pairs, used)) && ({
            let entry = after(bytes, used);
            &&& decode_value(entry, depth) matches Ok((key, key_len))
            &&& !(key is Text)
        }),
    ensures
        decode_entries(bytes, count, depth) == Err::<
            (Seq<(Seq<char>, ValueView)>, nat),
            DecodeError,
        >(DecodeError::InvalidData),
{
    lemma_entries_one_more(bytes, before, depth);
    lemma_entries_error_stays(bytes, before + 1, (count - before - 1) as nat, depth);
}

/// The round trip of a blob.
pub proof fn lemma_blob_round_trip(bits: Seq<bool>, rest: Seq<u8>, depth: nat)
    requires
        byte_len(bits.len()) <= max_blob_bytes(),
    ensures
        encode_value(ValueView::Blob(bits)).len() > 0,
        decode_value(encode_value(ValueView::Blob(bits)) + rest, depth) == Ok::<
            (ValueView, nat),
            DecodeError,
        >((ValueView::Blob(bits), encode_value(ValueView::Blob(bits)).len())),
{
    let preamble = unsigned_preamble(TAG_BLOB, bits.len());
    let payload = pack_bits(bits);
    let bytes = preamble + payload + rest;
    lemma_length_round_trip(TAG_BLOB, bits.len(), payload + rest);
    lemma_framing(preamble, payload, rest);
    let tail = preamble.skip(1) + (payload + rest);
    let skipped = (preamble.len() - 1) as nat;
    assert(tail.subrange(skipped as int, (skipped + payload.len()) as int) == payload);
    lemma_unpack_pack(bits);
    assert(decode_blob(bytes[0], tail) == Ok::<(ValueView, nat), DecodeError>(
        (ValueView::Blob(bits), skipped + payload.len()),
    ));
}

/// Decoding the bytes of a text gives the text back, whatever follows them.
pub proof fn lemma_text_round_trip(chars: Seq<char>, rest: Seq<u8>)
    requires
        chars.len() <= usize::MAX,
    ensures
        encode_text(chars).len() > 0,
        (encode_text(chars) + rest)[0] / 32 == 1,
        decode_text((encode_text(chars) + rest)[0], (encode_text(chars) + rest).skip(1)) == Ok::<
            (ValueView, nat),
            DecodeError,
        >((ValueView::Text(chars), (encode_text(chars).len() - 1) as nat)),
{
    let preamble = unsigned_preamble(TAG_TEXT, chars.len());
    let payload = kim_string(chars);
    lemma_length_round_trip(TAG_TEXT, chars.len(), payload + rest);
    lemma_framing(preamble, payload, rest);
    lemma_chars_round_trip(chars, rest);
}

/// The round trip of a text as a value.
pub proof fn lemma_text_value_round_trip(chars: Seq<char>, rest: Seq<u8>, depth: nat)
    requires
        chars.len() <= usize::MAX,
    ensures
        encode_text(chars).len() > 0,
        decode_value(encode_text(chars) + rest, depth) == Ok::<(ValueView, nat), DecodeError>(
            (ValueView::Text(chars), encode_text(chars).len()),
        ),
{
    lemma_text_round_trip(chars, rest);
}

/// Decoding the scalar values of a text gives them back, whatever follows
/// them.
pub proof fn lemma_chars_round_trip(chars: Seq<char>, rest: Seq<u8>)
    ensures
        decode_chars(kim_string(chars) + rest, chars.len()) == Ok::<
            (Seq<char>, nat),
            DecodeError,
        >((chars, kim_string(chars).len())),
    decreases chars.len(),
{
    if chars.len() == 0 {
        assert(chars == Seq::<char>::empty());
    } else {
        let front = chars.drop_last();
        let last = chars.last();
        let bytes = kim_string(chars) + rest;
        assert(bytes == kim_string(front) + (kim_bytes(last) + rest));
        lemma_chars_round_trip(front, kim_bytes(last) + rest);
        lemma_chars_one_more(bytes, front.len());
        assert(after(bytes, kim_string(front).len()) == kim_bytes(last) + rest);
        lemma_char_round_trip(last, rest);
        assert(front.push(last) == chars);
    }
}

/// The round trip of an integer.
pub proof fn lemma_integer_value_round_trip(i: int, rest: Seq<u8>, depth: nat)
    requires
        i128::MIN <= i <= i128::MAX,
    ensures
        encode_value(ValueView::Integer(i)).len() > 0,
        decode_value(encode_value(ValueView::Integer(i)) + rest, depth) == Ok::<
            (ValueView, nat),
            DecodeError,
        >((ValueView::Integer(i), encode_value(ValueView::Integer(i)).len())),
{
    let preamble = signed_preamble(TAG_INTEGER, i);
    lemma_integer_round_trip(TAG_INTEGER, i, rest);
    assert((preamble + rest).skip(1) == preamble.skip(1) + rest);
}

/// The round trip of a truth value.
pub proof fn lemma_bool_round_trip(b: bool, rest: Seq<u8>, depth: nat)
    ensures
        decode_value(encode_value(ValueView::Bool(b)) + rest, depth) == Ok::<
            (ValueView, nat),
            DecodeError,
        >((ValueView::Bool(b), 1nat)),
        encode_value(ValueView::Bool(b)).len() == 1,
{
}

/// Decoding the bytes of the first `count` of `items` gives those items back,
/// whatever follows them.
pub proof fn lemma_items_round_trip(items: Seq<ValueView>, count: nat, rest: Seq<u8>, depth: nat)
    requires
        count <= items.len(),
        forall|i: int| 0 <= i < items.len() ==> (#[trigger] items[i]).well_formed(),
        forall|i: int| 0 <= i < items.len() ==> (#[trigger] items[i]).nested_within(depth),
    ensures
        decode_items(encode_items(items, count) + rest, count, depth) == Ok::<
            (Seq<ValueView>, nat),
            DecodeError,
        >((items.take(count as int), encode_items(items, count).len())),
    decreases items, count,
{
    if count == 0 {
        assert(items.take(0) == Seq::<ValueView>::empty());
    } else {
        let before = encode_items(items, (count - 1) as nat);
        let last = encode_value(items[count - 1]);
        lemma_append_bytes(before, last, rest);
        lemma_items_round_trip(items, (count - 1) as nat, last + rest, depth);
        lemma_items_one_more(before + last + rest, (count - 1) as nat, depth);
        lemma_round_trip_with_rest(items[count - 1], rest, depth);
        assert(items.take(count - 1).push(items[count - 1]) == items.take(count as int));
    }
}

/// Decoding the bytes of the first `count` of `entries` gives those entries
/// back, whatever follows them.
pub proof fn lemma_entries_round_trip(
    entries: Seq<(Seq<char>, ValueView)>,
    count: nat,
    rest: Seq<u8>,
    depth: nat,
)
    requires
        count <= entries.len(),
        forall|i: int| 0 <= i < entries.len() ==> (#[trigger] entries[i]).1.well_formed(),
        forall|i: int| 0 <= i < entries.len() ==> (#[trigger] entries[i]).1.nested_within(depth),
        forall|i: int| 0 <= i < entries.len() ==> (#[trigger] entries[i]).0.len() <= usize::MAX,
    ensures
        decode_entries(encode_entries(entries, count) + rest, count, depth) == Ok::<
            (Seq<(Seq<char>, ValueView)>, nat),
            DecodeError,
        >((entries.take(count as int), encode_entries(entries, count).len())),
    decreases entries, count,
{
    if count == 0 {
        assert(entries.take(0) == Seq::<(Seq<char>, ValueView)>::empty());
    } else {
        let before = encode_entries(entries, (count - 1) as nat);
        let key = encode_text(entries[count - 1].0);
        let value = encode_value(entries[count - 1].1);
        lemma_append_bytes(before, key + value, rest);
        lemma_entries_round_trip(entries, (count - 1) as nat, key + value + rest, depth);
        lemma_entries_one_more(before + (key + value) + rest, (count - 1) as nat, depth);
        lemma_text_value_round_trip(entries[count - 1].0, value + rest, depth);
        lemma_round_trip_with_rest(entries[count - 1].1, rest, depth);
        lemma_entry_framing(entries[count - 1].0, entries[count - 1].1, key, value, rest, depth);
        assert(entries.take(count - 1).push(entries[count - 1]) == entries.take(count as int));
    }
}

/// A record built by insertion from entries with pairwise different keys is
/// those entries, in their order.
pub proof fn lemma_record_of_distinct_entries(entries: Seq<(Seq<char>, ValueView)>)
    requires
        distinct_keys(entries),
    ensures
        record_of(entries) == entries,
    decreases entries.len(),
{
    if entries.len() > 0 {
        let front = entries.drop_last();
        lemma_record_of_distinct_entries(front);
        lemma_key_index(front, entries.last().0);
        assert(key_index(front, entries.last().0) is None) by {
            if key_index(front, entries.last().0) is Some {
                let i = key_index(front, entries.last().0)->Some_0;
                assert(entries[i].0 == entries[entries.len() - 1].0);
            }
        }
        assert(front.push(entries.last()) == entries);
    }
}

/// Reading values gives as many as were asked for, each well formed, from
/// bytes that are there.
pub proof fn lemma_decoded_items(bytes: Seq<u8>, count: nat, depth: nat)
    ensures
        decode_items(bytes, count, depth) matches Ok((items, used)) ==> {
            &&& items.len() == count
            &&& count <= used <= bytes.len()
            &&& forall|i: int| 0 <= i < items.len() ==> (#[trigger] items[i]).well_formed()
            &&& forall|i: int| 0 <= i < items.len() ==> (#[trigger] items[i]).nested_within(depth)
        },
    decreases bytes.len(), count + 2,
{
    if count > 0 {
        lemma_decoded_is_well_formed(bytes, depth);
        match decode_value(bytes, depth) {
            Ok((item, used)) => {
                lemma_decoded_items(after(bytes, used), (count - 1) as nat, depth);
            },
            Err(_) => {},
        }
    }
}

/// Reading entries gives as many as were asked for, each with a key of a
/// length that fits and a well-formed value, from bytes that are there.
pub proof fn lemma_decoded_entries(bytes: Seq<u8>, count: nat, depth: nat)
    ensures
        decode_entries(bytes, count, depth) matches Ok((pairs, used)) ==> {
            &&& pairs.len() == count
            &&& 2 * count <= used <= bytes.len()
            &&& forall|i: int| 0 <= i < pairs.len() ==> (#[trigger] pairs[i]).1.well_formed()
            &&& forall|i: int|
                0 <= i < pairs.len() ==> (#[trigger] pairs[i]).1.nested_within(depth)
            &&& forall|i: int| 0 <= i < pairs.len() ==> (#[trigger] pairs[i]).0.len() <= usize::MAX
        },
    decreases bytes.len(), count + 3,
{
    if count > 0 {
        lemma_decoded_is_well_formed(bytes, depth);
        match decode_value(bytes, depth) {
            Ok((key, key_len)) => {
                lemma_decoded_is_well_formed(after(bytes, key_len), depth);
                match decode_entry(bytes, depth) {
                    Ok((pair, used)) => {
                        lemma_decoded_entries(after(bytes, used), (count - 1) as nat, depth);
                    },
                    Err(_) => {},
                }
            },
            Err(_) => {},
        }
    }
}

/// Reading scalar values gives as many as were asked for, from bytes that are
/// there.
proof fn lemma_decoded_chars(bytes: Seq<u8>, count: nat)
    ensures
        decode_chars(bytes, count) matches Ok((chars, used)) ==> chars.len() == count && count
            <= used <= bytes.len(),
    decreases count,
{
    if count > 0 {
        match decode_char(bytes) {
            Ok((c, used)) => {
                crate::preamble::lemma_read_adds_groups(0, bytes);
                lemma_decoded_chars(after(bytes, used), (count - 1) as nat);
            },
            Err(_) => {},
        }
    }
}

/// What a length decodes to fits a machine word, and the bytes read for it
/// are there.
proof fn lemma_decoded_length(head: u8, rest: Seq<u8>)
    ensures
        decode_length(head, rest) matches Ok((len, used)) ==> len <= usize::MAX && used
            <= rest.len(),
{
    if head / 16 % 2 == 1 {
        crate::preamble::lemma_read_adds_groups((head % 16) as nat, rest);
    }
}

/// What an integer decodes to fits 128 bits, and the bytes read for it are
/// there.
proof fn lemma_decoded_integer(head: u8, rest: Seq<u8>)
    ensures
        decode_integer(head, rest) matches Ok((i, used)) ==> i128::MIN <= i <= i128::MAX && used
            <= rest.len(),
{
    if head / 16 % 2 == 1 {
        crate::preamble::lemma_read_adds_groups((head % 8) as nat, rest);
    }
}

/// Every entry of a record built by insertion is one of the entries put in.
proof fn lemma_record_of_entries(pairs: Seq<(Seq<char>, ValueView)>)
    ensures
        record_of(pairs).len() <= pairs.len(),
        forall|i: int|
            0 <= i < record_of(pairs).len() ==> exists|j: int|
                0 <= j < pairs.len() && pairs[j] == #[trigger] record_of(pairs)[i],
    decreases pairs.len(),
{
    if pairs.len() > 0 {
        let front = pairs.drop_last();
        let last = pairs.last();
        lemma_record_of_entries(front);
        let old = record_of(front);
        let new = record_of(pairs);
        lemma_key_index(old, last.0);
        assert forall|i: int| 0 <= i < new.len() implies exists|j: int|
            0 <= j < pairs.len() && pairs[j] == #[trigger] new[i] by {
            if new[i] == last {
                assert(pairs[pairs.len() - 1] == new[i]);
            } else {
                assert(new[i] == old[i]);
                let j = choose|j: int| 0 <= j < front.len() && front[j] == old[i];
                assert(pairs[j] == new[i]);
            }
        }
    }
}

/// Once reading entries has failed, reading more of them fails the same way.
proof fn lemma_entries_error_stays(bytes: Seq<u8>, count: nat, more: nat, depth: nat)
    ensures
        decode_entries(bytes, count, depth) matches Err(e) ==> decode_entries(
            bytes,
            count + more,
            depth,
        ) == Err::<
            (Seq<(Seq<char>, ValueView)>, nat),
            DecodeError,
        >(e),
    decreases more,
{
    if more > 0 {
        lemma_entries_error_stays(bytes, count, (more - 1) as nat, depth);
        lemma_entries_one_more(bytes, (count + more - 1) as nat, depth);
    }
}

/// Reading `count + 1` scalar values is reading `count` and then one more.
proof fn lemma_chars_one_more(bytes: Seq<u8>, count: nat)
    ensures
        decode_chars(bytes, count + 1) == match decode_chars(bytes, count) {
            Err(e) => Err(e),
            Ok((chars, used)) => match decode_char(after(bytes, used)) {
                Err(e) => Err(e),
                Ok((c, more)) => Ok((chars.push(c), used + more)),
            },
        },
    decreases count,
{
    reveal_with_fuel(decode_chars, 2);
    lemma_after_after(bytes, 0, 0);
    match decode_char(bytes) {
        Err(_) => {},
        Ok((first, first_len)) => {
            let tail = after(bytes, first_len);
            if count == 0 {
                assert(seq![first] + Seq::<char>::empty() == Seq::<char>::empty().push(first));
            } else {
                lemma_chars_one_more(tail, (count - 1) as nat);
                match decode_chars(tail, (count - 1) as nat) {
                    Err(_) => {},
                    Ok((chars, used)) => {
                        lemma_after_after(bytes, first_len, used);
                        match decode_char(after(tail, used)) {
                            Err(_) => {},
                            Ok((c, more)) => {
                                assert(seq![first] + chars.push(c) == (seq![first] + chars).push(
                                    c,
                                ));
                            },
                        }
                    },
                }
            }
        },
    }
}

/// Reading `count + 1` values is reading `count` and then one more.
proof fn lemma_items_one_more(bytes: Seq<u8>, count: nat, depth: nat)
    ensures
        decode_items(bytes, count + 1, depth) == match decode_items(bytes, count, depth) {
            Err(e) => Err(e),
            Ok((items, used)) => match decode_value(after(bytes, used), depth) {
                Err(e) => Err(e),
                Ok((item, more)) => Ok((items.push(item), used + more)),
            },
        },
    decreases count,
{
    lemma_after_after(bytes, 0, 0);
    lemma_items_unfold(bytes, count, depth);
    lemma_items_unfold(bytes, count + 1, depth);
    match decode_value(bytes, depth) {
        Err(_) => {},
        Ok((first, first_len)) => {
            let tail = after(bytes, first_len);
            lemma_items_unfold(tail, 0, depth);
            if count == 0 {
                assert(seq![first] + Seq::<ValueView>::empty() == Seq::<ValueView>::empty().push(
                    first,
                ));
            } else {
                lemma_items_one_more(tail, (count - 1) as nat, depth);
                match decode_items(tail, (count - 1) as nat, depth) {
                    Err(_) => {},
                    Ok((items, used)) => {
                        lemma_after_after(bytes, first_len, used);
                        match decode_value(after(tail, used), depth) {
                            Err(_) => {},
                            Ok((item, more)) => {
                                assert(seq![first] + items.push(item) == (seq![first]
                                    + items).push(item));
                            },
                        }
                    },
                }
            }
        },
    }
}

/// Reading `count + 1` entries is reading `count` and then one more.
proof fn lemma_entries_one_more(bytes: Seq<u8>, count: nat, depth: nat)
    ensures
        decode_entries(bytes, count + 1, depth) == match decode_entries(bytes, count, depth) {
            Err(e) => Err(e),
            Ok((pairs, used)) => match decode_entry(after(bytes, used), depth) {
                Err(e) => Err(e),
                Ok((pair, more)) => Ok((pairs.push(pair), used + more)),
            },
        },
    decreases count,
{
    lemma_after_after(bytes, 0, 0);
    lemma_entries_unfold(bytes, count, depth);
    lemma_entries_unfold(bytes, count + 1, depth);
    match decode_entry(bytes, depth) {
        Err(_) => {},
        Ok((first, first_len)) => {
            let tail = after(bytes, first_len);
            lemma_entries_unfold(tail, 0, depth);
            if count == 0 {
                assert(seq![first] + Seq::<(Seq<char>, ValueView)>::empty() == Seq::<
                    (Seq<char>, ValueView),
                >::empty().push(first));
            } else {
                lemma_entries_one_more(tail, (count - 1) as nat, depth);
                match decode_entries(tail, (count - 1) as nat, depth) {
                    Err(_) => {},
                    Ok((pairs, used)) => {
                        lemma_after_after(bytes, first_len, used);
                        match decode_entry(after(tail, used), depth) {
                            Err(_) => {},
                            Ok((pair, more)) => {
                                assert(seq![first] + pairs.push(pair) == (seq![first]
                                    + pairs).push(pair));
                            },
                        }
                    },
                }
            }
        },
    }
}

/// A part of two sequences joined is a part of the first, or the first and a
/// part of the second.
proof fn lemma_take_concat(first: Seq<u8>, second: Seq<u8>, kept: nat)
    requires
        kept <= first.len() + second.len(),
    ensures
        kept <= first.len() ==> (first + second).take(kept as int) == first.take(kept as int),
        kept >= first.len() ==> (first + second).take(kept as int) == first + second.take(
            kept - first.len(),
        ),
{
    if kept <= first.len() {
        assert((first + second).take(kept as int) == first.take(kept as int));
    }
    if kept >= first.len() {
        assert((first + second).take(kept as int) == first + second.take(kept - first.len()));
    }
}

/// The scalar values of a text, cut short, are input that ends early.
proof fn lemma_chars_cut(chars: Seq<char>, kept: nat)
    requires
        kept < kim_string(chars).len(),
    ensures
        decode_chars(kim_string(chars).take(kept as int), chars.len()) == Err::<
            (Seq<char>, nat),
            DecodeError,
        >(DecodeError::UnexpectedEof),
    decreases chars.len(),
{
    let front = chars.drop_last();
    let last = chars.last();
    let cut = kim_string(chars).take(kept as int);
    lemma_take_concat(kim_string(front), kim_bytes(last), kept);
    lemma_chars_one_more(cut, front.len());
    if kept < kim_string(front).len() {
        lemma_chars_cut(front, kept);
    } else {
        let rest = kim_bytes(last).take(kept - kim_string(front).len());
        lemma_chars_round_trip(front, rest);
        assert(after(kim_string(front) + rest, kim_string(front).len()) == rest);
        lemma_char_cut(last, (kept - kim_string(front).len()) as nat);
    }
}

/// A value with a length in front, cut short inside the preamble or inside
/// a payload that does not decode for being cut short, is input that ends
/// early: the part for texts.
proof fn lemma_text_cut(chars: Seq<char>, kept: nat, depth: nat)
    requires
        chars.len() <= usize::MAX,
        kept < encode_text(chars).len(),
    ensures
        decode_value(encode_text(chars).take(kept as int), depth) == Err::<
            (ValueView, nat),
            DecodeError,
        >(DecodeError::UnexpectedEof),
{
    let preamble = unsigned_preamble(TAG_TEXT, chars.len());
    let payload = kim_string(chars);
    let cut = encode_text(chars).take(kept as int);
    lemma_take_concat(preamble, payload, kept);
    lemma_length_round_trip(TAG_TEXT, chars.len(), Seq::empty());
    if kept == 0 {
    } else if kept < preamble.len() {
        lemma_length_cut(TAG_TEXT, chars.len(), kept);
    } else {
        let part = payload.take(kept - preamble.len());
        lemma_length_round_trip(TAG_TEXT, chars.len(), part + Seq::empty());
        lemma_framing(preamble, part, Seq::empty());
        assert(preamble + part + Seq::<u8>::empty() == preamble + part);
        assert(part + Seq::<u8>::empty() == part);
        lemma_chars_cut(chars, (kept - preamble.len()) as nat);
        assert(decode_text(cut[0], cut.skip(1)) == Err::<(ValueView, nat), DecodeError>(
            DecodeError::UnexpectedEof,
        ));
    }
}

/// The bytes of a blob, cut short, are input that ends early.
proof fn lemma_blob_cut(bits: Seq<bool>, kept: nat, depth: nat)
    requires
        byte_len(bits.len()) <= max_blob_bytes(),
        kept < encode_value(ValueView::Blob(bits)).len(),
    ensures
        decode_value(encode_value(ValueView::Blob(bits)).take(kept as int), depth) == Err::<
            (ValueView, nat),
            DecodeError,
        >(DecodeError::UnexpectedEof),
{
    let preamble = unsigned_preamble(TAG_BLOB, bits.len());
    let payload = pack_bits(bits);
    let cut = (preamble + payload).take(kept as int);
    lemma_take_concat(preamble, payload, kept);
    lemma_length_round_trip(TAG_BLOB, bits.len(), Seq::empty());
    if kept == 0 {
    } else if kept < preamble.len() {
        lemma_length_cut(TAG_BLOB, bits.len(), kept);
    } else {
        let part = payload.take(kept - preamble.len());
        lemma_length_round_trip(TAG_BLOB, bits.len(), part + Seq::empty());
        lemma_framing(preamble, part, Seq::empty());
        assert(preamble + part + Seq::<u8>::empty() == preamble + part);
        assert(part + Seq::<u8>::empty() == part);
        assert(decode_blob(cut[0], cut.skip(1)) == Err::<(ValueView, nat), DecodeError>(
            DecodeError::UnexpectedEof,
        ));
    }
}

/// An array or a record, cut short inside its preamble or inside a payload
/// that is input that ends early, is input that ends early.
#[verifier::rlimit(40)]
proof fn lemma_container_cut(tag: u8, len: nat, payload: Seq<u8>, kept: nat, depth: nat)
    requires
        tag == TAG_ARRAY || tag == TAG_RECORD,
        len <= usize::MAX,
        kept < (unsigned_preamble(tag, len) + payload).len(),
        kept >= unsigned_preamble(tag, len).len() ==> {
            let part = payload.take(kept - unsigned_preamble(tag, len).len());
            &&& tag == TAG_ARRAY ==> decode_items(part, len, depth) == Err::<
                (Seq<ValueView>, nat),
                DecodeError,
            >(DecodeError::UnexpectedEof)
            &&& tag == TAG_RECORD ==> decode_entries(part, len, depth) == Err::<
                (Seq<(Seq<char>, ValueView)>, nat),
                DecodeError,
            >(DecodeError::UnexpectedEof)
        },
    ensures
        decode_value((unsigned_preamble(tag, len) + payload).take(kept as int), depth + 1) == Err::<
            (ValueView, nat),
            DecodeError,
        >(DecodeError::UnexpectedEof),
{
    let preamble = unsigned_preamble(tag, len);
    let cut = (preamble + payload).take(kept as int);
    lemma_take_concat(preamble, payload, kept);
    lemma_length_round_trip(tag, len, Seq::empty());
    if kept == 0 {
    } else if kept < preamble.len() {
        lemma_length_cut(tag, len, kept);
    } else {
        let part = payload.take(kept - preamble.len());
        lemma_length_round_trip(tag, len, part + Seq::empty());
        lemma_framing(preamble, part, Seq::empty());
        assert(preamble + part + Seq::<u8>::empty() == preamble + part);
        assert(part + Seq::<u8>::empty() == part);
        if tag == TAG_ARRAY {
            assert(decode_array(cut[0], cut.skip(1), depth) == Err::<
                (ValueView, nat),
                DecodeError,
            >(DecodeError::UnexpectedEof));
        } else {
            assert(decode_record(cut[0], cut.skip(1), depth) == Err::<
                (ValueView, nat),
                DecodeError,
            >(DecodeError::UnexpectedEof));
        }
    }
}

/// Reading values, taken apart: none, or the first and then the rest.
proof fn lemma_items_unfold(bytes: Seq<u8>, count: nat, depth: nat)
    ensures
        decode_items(bytes, count, depth) == if count == 0 {
            Ok::<(Seq<ValueView>, nat), DecodeError>((Seq::empty(), 0nat))
        } else {
            match decode_value(bytes, depth) {
                Err(e) => Err(e),
                Ok((item, used)) => prepend(
                    seq![item],
                    used,
                    decode_items(after(bytes, used), (count - 1) as nat, depth),
                ),
            }
        },
{
}

/// Reading entries, taken apart: none, or the first and then the rest.
proof fn lemma_entries_unfold(bytes: Seq<u8>, count: nat, depth: nat)
    ensures
        decode_entries(bytes, count, depth) == if count == 0 {
            Ok::<(Seq<(Seq<char>, ValueView)>, nat), DecodeError>((Seq::empty(), 0nat))
        } else {
            match decode_entry(bytes, depth) {
                Err(e) => Err(e),
                Ok((pair, used)) => prepend(
                    seq![pair],
                    used,
                    decode_entries(after(bytes, used), (count - 1) as nat, depth),
                ),
            }
        },
{
}

/// Dropping bytes from the front twice is dropping them once.
proof fn lemma_after_after(bytes: Seq<u8>, first: nat, second: nat)
    ensures
        after(after(bytes, first), second) == after(bytes, first + second),
        after(bytes, 0) == bytes,
{
    if first + second <= bytes.len() {
        assert(bytes.skip(first as int).skip(second as int) == bytes.skip(
            (first + second) as int,
        ));
    }
    assert(bytes.skip(0) == bytes);
}

/// A preamble, a payload and what follows them, taken apart: the first byte
/// is the preamble's, and behind the rest of the preamble stands the payload.
proof fn lemma_framing(preamble: Seq<u8>, payload: Seq<u8>, rest: Seq<u8>)
    requires
        preamble.len() > 0,
    ensures
        (preamble + payload + rest)[0] == preamble[0],
        (preamble + payload + rest).skip(1) == preamble.skip(1) + (payload + rest),
        after(preamble.skip(1) + (payload + rest), (preamble.len() - 1) as nat) == payload + rest,
        (preamble + payload + rest).len() == preamble.len() + payload.len() + rest.len(),
        preamble + payload + rest == preamble + (payload + rest),
{
    let all = preamble.skip(1) + (payload + rest);
    assert((preamble + payload + rest).skip(1) == all);
    assert(all.skip(preamble.len() - 1) == payload + rest);
    assert(preamble + payload + rest == preamble + (payload + rest));
}

/// One more element decoded behind `count` decoded elements.
proof fn lemma_append_bytes(before: Seq<u8>, last: Seq<u8>, rest: Seq<u8>)
    ensures
        before + last + rest == before + (last + rest),
        after(before + last + rest, before.len()) == last + rest,
        (before + last).len() == before.len() + last.len(),
{
    let bytes = before + last + rest;
    assert(bytes == before + (last + rest));
    assert(bytes.skip(before.len() as int) == last + rest);
}

/// An array decodes to the items that its payload decodes to.
#[verifier::rlimit(40)]
proof fn lemma_array_framing(
    items: Seq<ValueView>,
    payload: Seq<u8>,
    rest: Seq<u8>,
    depth: nat,
)
    requires
        items.len() <= usize::MAX,
        decode_items(payload + rest, items.len(), depth) == Ok::<
            (Seq<ValueView>, nat),
            DecodeError,
        >((items, payload.len())),
    ensures
        decode_value(unsigned_preamble(TAG_ARRAY, items.len()) + payload + rest, depth + 1) == Ok::<
            (ValueView, nat),
            DecodeError,
        >(
            (
                ValueView::Array(items),
                (unsigned_preamble(TAG_ARRAY, items.len()) + payload).len(),
            ),
        ),
{
    let preamble = unsigned_preamble(TAG_ARRAY, items.len());
    let bytes = preamble + payload + rest;
    lemma_length_round_trip(TAG_ARRAY, items.len(), payload + rest);
    lemma_framing(preamble, payload, rest);
    let tail = preamble.skip(1) + (payload + rest);
    assert(bytes.len() > 0);
    assert(bytes[0] / 32 == TAG_ARRAY / 32);
    assert(bytes.skip(1) == tail);
    assert(decode_array(bytes[0], tail, depth) == Ok::<(ValueView, nat), DecodeError>(
        (ValueView::Array(items), (preamble.len() - 1 + payload.len()) as nat),
    ));
}

/// A record decodes to the record built from the entries that its payload
/// decodes to.
#[verifier::rlimit(40)]
proof fn lemma_record_framing(
    entries: Seq<(Seq<char>, ValueView)>,
    payload: Seq<u8>,
    rest: Seq<u8>,
    depth: nat,
)
    requires
        entries.len() <= usize::MAX,
        decode_entries(payload + rest, entries.len(), depth) == Ok::<
            (Seq<(Seq<char>, ValueView)>, nat),
            DecodeError,
        >((entries, payload.len())),
    ensures
        decode_value(unsigned_preamble(TAG_RECORD, entries.len()) + payload + rest, depth + 1)
            == Ok::<(ValueView, nat), DecodeError>(
            (
                ValueView::Record(record_of(entries)),
                (unsigned_preamble(TAG_RECORD, entries.len()) + payload).len(),
            ),
        ),
{
    let preamble = unsigned_preamble(TAG_RECORD, entries.len());
    let bytes = preamble + payload + rest;
    lemma_length_round_trip(TAG_RECORD, entries.len(), payload + rest);
    lemma_framing(preamble, payload, rest);
    let tail = preamble.skip(1) + (payload + rest);
    assert(bytes.len() > 0);
    assert(bytes[0] / 32 == TAG_RECORD / 32);
    assert(bytes.skip(1) == tail);
    assert(decode_record(bytes[0], tail, depth) == Ok::<(ValueView, nat), DecodeError>(
        (ValueView::Record(record_of(entries)), (preamble.len() - 1 + payload.len()) as nat),
    ));
}

/// An entry decodes to the key and the value that its two parts decode to.
proof fn lemma_entry_framing(
    name: Seq<char>,
    value: ValueView,
    key_bytes: Seq<u8>,
    value_bytes: Seq<u8>,
    rest: Seq<u8>,
    depth: nat,
)
    requires
        decode_value(key_bytes + (value_bytes + rest), depth) == Ok::<
            (ValueView, nat),
            DecodeError,
        >((ValueView::Text(name), key_bytes.len())),
        decode_value(value_bytes + rest, depth) == Ok::<(ValueView, nat), DecodeError>(
            (value, value_bytes.len()),
        ),
    ensures
        decode_entry(key_bytes + value_bytes + rest, depth) == Ok::<
            ((Seq<char>, ValueView), nat),
            DecodeError,
        >(((name, value), (key_bytes + value_bytes).len())),
{
    let bytes = key_bytes + value_bytes + rest;
    assert(bytes == key_bytes + (value_bytes + rest));
    assert(after(bytes, key_bytes.len()) == value_bytes + rest);
}

} // verus!
