//! Encoding: the bytes of a value, and the functions that append them to a
//! buffer.

use vstd::prelude::*;
use vstd::string::StrSliceExecFns;
use crate::blob::pack_bits;
use crate::kim::{kim_bytes, write_kim_char};
use crate::preamble::{
    serialize_signed_preamble,
    serialize_unsigned_preamble,
    signed_preamble,
    unsigned_preamble,
    TAG_ARRAY,
    TAG_BLOB,
    TAG_INTEGER,
    TAG_RECORD,
    TAG_TEXT,
};
use crate::value::{lemma_entry_views, lemma_item_views, Value, ValueView};

verus! {

/// The bytes of the scalar values of `chars`, one after another.
pub open spec fn kim_string(chars: Seq<char>) -> Seq<u8>
    decreases chars.len(),
{
    if chars.len() == 0 {
        Seq::empty()
    } else {
        kim_string(chars.drop_last()) + kim_bytes(chars.last())
    }
}

/// The bytes of a text: its length in scalar values as an unsigned preamble
/// under the text tag, then its scalar values.
pub open spec fn encode_text(chars: Seq<char>) -> Seq<u8> {
    unsigned_preamble(TAG_TEXT, chars.len()) + kim_string(chars)
}

/// The bytes of a value.
///
/// - A blob: its length in bits as an unsigned preamble, then its packed bytes.
/// - A text: see [`encode_text`].
/// - An array: its length as an unsigned preamble, then its items in order.
/// - A record: the number of its entries as an unsigned preamble, then for
///   each entry in order the key as a text and the value.
/// - An integer: a signed preamble and nothing else.
/// - A truth value: the one byte `0xC0` or `0xC1`.
///
/// A decimal float has no bytes: the function gives the empty sequence for it,
/// and means nothing for a value that holds one.
pub open spec fn encode_value(v: ValueView) -> Seq<u8>
    decreases v,
{
    match v {
        ValueView::Blob(bits) => unsigned_preamble(TAG_BLOB, bits.len()) + pack_bits(bits),
        ValueView::Text(chars) => encode_text(chars),
        ValueView::Array(items) => unsigned_preamble(TAG_ARRAY, items.len()) + encode_items(
            items,
            items.len(),
        ),
        ValueView::Record(entries) => unsigned_preamble(TAG_RECORD, entries.len())
            + encode_entries(entries, entries.len()),
        ValueView::Integer(i) => signed_preamble(TAG_INTEGER, i),
        ValueView::DecimalFloat(_) => Seq::empty(),
        ValueView::Bool(b) => seq![
            if b {
                0xC1u8
            } else {
                0xC0u8
            },
        ],
    }
}

/// The bytes of the first `count` items of `items`, one after another.
pub open spec fn encode_items(items: Seq<ValueView>, count: nat) -> Seq<u8>
    decreases items, count,
{
    if count == 0 || count > items.len() {
        Seq::empty()
    } else {
        encode_items(items, (count - 1) as nat) + encode_value(items[count - 1])
    }
}

/// The bytes of the first `count` entries of `entries`: for each its key as a
/// text, then its value.
pub open spec fn encode_entries(entries: Seq<(Seq<char>, ValueView)>, count: nat) -> Seq<u8>
    decreases entries, count,
{
    if count == 0 || count > entries.len() {
        Seq::empty()
    } else {
        encode_entries(entries, (count - 1) as nat) + (encode_text(entries[count - 1].0)
            + encode_value(entries[count - 1].1))
    }
}

/// Appends the bytes of the text `val` to `into`.
pub fn serialize_string(val: &str, into: &mut Vec<u8>)
    ensures
        final(into)@ == old(into)@ + encode_text(val@),
{
    let char_len = val.unicode_len();
    serialize_unsigned_preamble(TAG_TEXT, char_len as u128, into);
    let ghost head = into@;
    assert(val@.take(0) == Seq::<char>::empty());
    assert(head + kim_string(val@.take(0)) == head);
    for c in iter: val.chars()
        invariant
            iter.seq() == val@,
            head == old(into)@ + unsigned_preamble(TAG_TEXT, val@.len()),
            into@ == head + kim_string(val@.take(iter.index() as int)),
    {
        let ghost done = val@.take(iter.index() as int);
        let ghost next = val@.take(iter.index() + 1);
        assert(next.drop_last() == done);
        assert(next.last() == c);
        write_kim_char(c, into);
        assert(head + kim_string(done) + kim_bytes(c) == head + kim_string(next));
    }
    assert(val@.take(val@.len() as int) == val@);
    assert(into@ == old(into)@ + (unsigned_preamble(TAG_TEXT, val@.len()) + kim_string(val@)));
}

impl Value {
    /// Appends the bytes of the value to `into`. A value that holds a decimal
    /// float has no bytes and may not be passed; [`Value::is_supported`]
    /// tells.
    #[verifier::loop_isolation(false)]
    pub fn serialize_into(&self, into: &mut Vec<u8>)
        requires
            self@.supported(),
        ensures
            final(into)@ == old(into)@ + encode_value(self@),
        decreases self,
    {
        match self {
            Value::Blob(blob) => {
                serialize_unsigned_preamble(TAG_BLOB, blob.len() as u128, into);
                blob.pack_into(into);
                assert(into@ == old(into)@ + encode_value(self@));
            },
            Value::Text(text) => {
                serialize_string(text.as_str(), into);
            },
            Value::Array(items) => {
                serialize_unsigned_preamble(TAG_ARRAY, items.len() as u128, into);
                let ghost head = into@;
                let ghost views = self@->Array_0;
                proof {
                    lemma_item_views(items@, items@.len());
                }
                assert(head + encode_items(views, 0) == head);
                let mut i: usize = 0;
                while i < items.len()
                    invariant
                        i <= items@.len(),
                        into@ == head + encode_items(views, i as nat),
                    decreases items@.len() - i,
                {
                    assert(views[i as int] == items@[i as int]@);
                    assert(views[i as int].supported());
                    items[i].serialize_into(into);
                    assert(head + encode_items(views, i as nat) + encode_value(views[i as int])
                        == head + encode_items(views, (i + 1) as nat));
                    i = i + 1;
                }
                assert(into@ == old(into)@ + encode_value(self@));
            },
            Value::Record(entries) => {
                serialize_unsigned_preamble(TAG_RECORD, entries.len() as u128, into);
                let ghost head = into@;
                let ghost views = self@->Record_0;
                proof {
                    lemma_entry_views(entries@, entries@.len());
                }
                assert(head + encode_entries(views, 0) == head);
                let mut i: usize = 0;
                while i < entries.len()
                    invariant
                        i <= entries@.len(),
                        into@ == head + encode_entries(views, i as nat),
                    decreases entries@.len() - i,
                {
                    assert(views[i as int] == (entries@[i as int].0@, entries@[i as int].1@));
                    assert(views[i as int].1.supported());
                    serialize_string(entries[i].0.as_str(), into);
                    entries[i].1.serialize_into(into);
                    assert(head + encode_entries(views, i as nat) + encode_text(views[i as int].0)
                        + encode_value(views[i as int].1) == head + (encode_entries(
                        views,
                        i as nat,
                    ) + (encode_text(views[i as int].0) + encode_value(views[i as int].1))));
                    i = i + 1;
                }
                assert(into@ == old(into)@ + encode_value(self@));
            },
            Value::Integer(i) => {
                serialize_signed_preamble(TAG_INTEGER, *i, into);
            },
            Value::DecimalFloat(_) => {},
            Value::Bool(b) => {
                into.push(
                    if *b {
                        0xC1
                    } else {
                        0xC0
                    },
                );
            },
        }
    }
}

} // verus!
