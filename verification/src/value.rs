//! The value model: what is encoded and what decoding gives back.

use vstd::prelude::*;
use vstd::string::StrSliceExecFns;
use crate::blob::Blob;
use crate::record::{find_key, has_distinct_keys, key_index, lemma_key_index};

verus! {

/// A decimal floating-point number, `coefficient * 10^exponent`. It belongs to
/// the value model but has no wire form: no value that holds one can be
/// encoded, and no bytes decode to one.
#[derive(Debug, Clone, Copy, PartialEq, Eq)]
pub struct DecimalFloat {
    pub exponent: i32,
    pub coefficient: i64,
}

/// One value of the notation.
#[derive(Debug)]
#[non_exhaustive]
pub enum Value {
    /// Bits, not bytes, with an exact length.
    Blob(Blob),
    /// Unicode scalar values.
    Text(String),
    /// Values in order.
    Array(Vec<Value>),
    /// Entries of a text key and a value. The order of the entries is the
    /// order of their bytes and means nothing else: two records are equal
    /// when they hold the same keys with equal values. A well-formed record
    /// holds each key once; of more entries with one key the last counts.
    Record(Vec<(String, Value)>),
    /// A signed integer.
    Integer(i128),
    /// Not encodable; see [`DecimalFloat`].
    DecimalFloat(DecimalFloat),
    /// A truth value.
    Bool(bool),
}

/// The mathematical content of a [`Value`].
pub enum ValueView {
    Blob(Seq<bool>),
    Text(Seq<char>),
    Array(Seq<ValueView>),
    Record(Seq<(Seq<char>, ValueView)>),
    Integer(int),
    DecimalFloat(DecimalFloat),
    Bool(bool),
}

impl View for Value {
    type V = ValueView;

    open spec fn view(&self) -> ValueView
        decreases self,
    {
        match self {
            Value::Blob(blob) => ValueView::Blob(blob@),
            Value::Text(text) => ValueView::Text(text@),
            Value::Array(items) => ValueView::Array(item_views(items@, items@.len())),
            Value::Record(entries) => ValueView::Record(entry_views(entries@, entries@.len())),
            Value::Integer(i) => ValueView::Integer(*i as int),
            Value::DecimalFloat(float) => ValueView::DecimalFloat(*float),
            Value::Bool(b) => ValueView::Bool(*b),
        }
    }
}

/// The views of the first `count` values of `items`, in order.
pub open spec fn item_views(items: Seq<Value>, count: nat) -> Seq<ValueView>
    decreases items, count,
{
    if count == 0 || count > items.len() {
        Seq::empty()
    } else {
        item_views(items, (count - 1) as nat).push(items[count - 1]@)
    }
}

/// The views of the first `count` entries of `entries`, in order.
pub open spec fn entry_views(entries: Seq<(String, Value)>, count: nat) -> Seq<
    (Seq<char>, ValueView),
>
    decreases entries, count,
{
    if count == 0 || count > entries.len() {
        Seq::empty()
    } else {
        entry_views(entries, (count - 1) as nat).push(
            (entries[count - 1].0@, entries[count - 1].1@),
        )
    }
}

/// The view of a sequence of values has the view of each value at its place.
pub proof fn lemma_item_views(items: Seq<Value>, count: nat)
    requires
        count <= items.len(),
    ensures
        item_views(items, count).len() == count,
        forall|i: int| 0 <= i < count ==> (#[trigger] item_views(items, count)[i]) == items[i]@,
    decreases count,
{
    if count > 0 {
        lemma_item_views(items, (count - 1) as nat);
        assert(item_views(items, count) == item_views(items, (count - 1) as nat).push(
            items[count - 1]@,
        ));
    }
}

/// The view of a sequence of entries has the views of each entry's key and
/// value at its place.
pub proof fn lemma_entry_views(entries: Seq<(String, Value)>, count: nat)
    requires
        count <= entries.len(),
    ensures
        entry_views(entries, count).len() == count,
        forall|i: int|
            0 <= i < count ==> (#[trigger] entry_views(entries, count)[i]) == (
                entries[i].0@,
                entries[i].1@,
            ),
    decreases count,
{
    if count > 0 {
        lemma_entry_views(entries, (count - 1) as nat);
        assert(entry_views(entries, count) == entry_views(entries, (count - 1) as nat).push(
            (entries[count - 1].0@, entries[count - 1].1@),
        ));
    }
}

/// The keys of `entries` are pairwise different.
pub open spec fn distinct_keys(entries: Seq<(Seq<char>, ValueView)>) -> bool {
    forall|i: int, j: int|
        0 <= i < j < entries.len() ==> (#[trigger] entries[i]).0 != (#[trigger] entries[j]).0
}

impl ValueView {
    /// No decimal float occurs in the value, at any depth. These are the values
    /// that can be encoded.
    pub open spec fn supported(self) -> bool
        decreases self,
    {
        match self {
            ValueView::Array(items) => forall|i: int|
                0 <= i < items.len() ==> (#[trigger] items[i]).supported(),
            ValueView::Record(entries) => forall|i: int|
                0 <= i < entries.len() ==> (#[trigger] entries[i]).1.supported(),
            ValueView::DecimalFloat(_) => false,
            _ => true,
        }
    }

    /// Arrays and records are nested at most `depth` deep in the value: a
    /// value that is neither has depth zero, and an array or a record is one
    /// deeper than the deepest of what it holds.
    pub open spec fn nested_within(self, depth: nat) -> bool
        decreases self,
    {
        match self {
            ValueView::Array(items) => {
                &&& depth > 0
                &&& forall|i: int|
                    0 <= i < items.len() ==> (#[trigger] items[i]).nested_within(
                        (depth - 1) as nat,
                    )
            },
            ValueView::Record(entries) => {
                &&& depth > 0
                &&& forall|i: int|
                    0 <= i < entries.len() ==> (#[trigger] entries[i]).1.nested_within(
                        (depth - 1) as nat,
                    )
            },
            _ => true,
        }
    }

    /// The two values have the same content when their records are read as
    /// mappings: arrays have the same items in the same order, and records
    /// the same keys with the same values under them, in whatever order the
    /// entries stand. Where a record holds a key more than once, the last
    /// entry with the key counts.
    pub open spec fn same_as(self, other: ValueView) -> bool
        decreases self,
    {
        match self {
            ValueView::Array(items) => {
                &&& other matches ValueView::Array(others)
                &&& items.len() == others.len()
                &&& forall|i: int|
                    0 <= i < items.len() ==> (#[trigger] items[i]).same_as(others[i])
            },
            ValueView::Record(entries) => {
                &&& other matches ValueView::Record(others)
                &&& forall|i: int|
                    0 <= i < entries.len() ==> key_index(others, (#[trigger] entries[i]).0)
                        is Some
                &&& forall|j: int|
                    0 <= j < others.len() ==> key_index(entries, (#[trigger] others[j]).0)
                        is Some
                &&& forall|i: int, j: int|
                    0 <= i < entries.len() && 0 <= j < others.len() && key_index(
                        entries,
                        (#[trigger] entries[i]).0,
                    ) == Some(i) && key_index(others, (#[trigger] others[j]).0) == Some(j)
                        && entries[i].0 == others[j].0 ==> entries[i].1.same_as(others[j].1)
            },
            _ => self == other,
        }
    }

    /// The value has bytes from which decoding gives its content back, at
    /// some depth of nesting: no decimal float occurs in it, its integers fit
    /// 128 bits, the lengths of its texts, arrays and records fit a machine
    /// word, and its blobs pack into no more bytes than can be turned into a
    /// blob. Its records may hold a key more than once.
    pub open spec fn decodable(self) -> bool
        decreases self,
    {
        match self {
            ValueView::Blob(bits) => byte_len_fits(bits.len()),
            ValueView::Text(chars) => chars.len() <= usize::MAX,
            ValueView::Array(items) => {
                &&& items.len() <= usize::MAX
                &&& forall|i: int| 0 <= i < items.len() ==> (#[trigger] items[i]).decodable()
            },
            ValueView::Record(entries) => {
                &&& entries.len() <= usize::MAX
                &&& forall|i: int|
                    0 <= i < entries.len() ==> (#[trigger] entries[i]).0.len() <= usize::MAX
                &&& forall|i: int| 0 <= i < entries.len() ==> (#[trigger] entries[i]).1.decodable()
            },
            ValueView::Integer(i) => i128::MIN <= i <= i128::MAX,
            ValueView::DecimalFloat(_) => false,
            ValueView::Bool(_) => true,
        }
    }

    /// The value is one that decoding can give back, at some depth of
    /// nesting: no decimal float occurs in it, every record in it holds each
    /// key once, its integers fit 128 bits, the lengths of its texts, arrays
    /// and records fit a machine word, and its blobs pack into no more bytes
    /// than can be turned into a blob.
    pub open spec fn well_formed(self) -> bool
        decreases self,
    {
        match self {
            ValueView::Blob(bits) => byte_len_fits(bits.len()),
            ValueView::Text(chars) => chars.len() <= usize::MAX,
            ValueView::Array(items) => {
                &&& items.len() <= usize::MAX
                &&& forall|i: int| 0 <= i < items.len() ==> (#[trigger] items[i]).well_formed()
            },
            ValueView::Record(entries) => {
                &&& entries.len() <= usize::MAX
                &&& distinct_keys(entries)
                &&& forall|i: int|
                    0 <= i < entries.len() ==> (#[trigger] entries[i]).0.len() <= usize::MAX
                &&& forall|i: int|
                    0 <= i < entries.len() ==> (#[trigger] entries[i]).1.well_formed()
            },
            ValueView::Integer(i) => i128::MIN <= i <= i128::MAX,
            ValueView::DecimalFloat(_) => false,
            ValueView::Bool(_) => true,
        }
    }
}

/// A blob of `bit_len` bits packs into no more bytes than can be turned back
/// into a blob.
pub open spec fn byte_len_fits(bit_len: nat) -> bool {
    crate::blob::byte_len(bit_len) <= crate::blob::max_blob_bytes()
}

impl Value {
    /// Whether the value can be encoded: whether no decimal float occurs in
    /// it, at any depth.
    #[verifier::loop_isolation(false)]
    pub fn is_supported(&self) -> (r: bool)
        ensures
            r == self@.supported(),
        decreases self,
    {
        match self {
            Value::Array(items) => {
                proof {
                    lemma_item_views(items@, items@.len());
                }
                let mut i: usize = 0;
                while i < items.len()
                    invariant
                        i <= items@.len(),
                        forall|j: int| 0 <= j < i ==> (#[trigger] self@->Array_0[j]).supported(),
                    decreases items@.len() - i,
                {
                    if !items[i].is_supported() {
                        assert(!self@->Array_0[i as int].supported());
                        return false;
                    }
                    i = i + 1;
                }
                true
            },
            Value::Record(entries) => {
                proof {
                    lemma_entry_views(entries@, entries@.len());
                }
                let mut i: usize = 0;
                while i < entries.len()
                    invariant
                        i <= entries@.len(),
                        forall|j: int|
                            0 <= j < i ==> (#[trigger] self@->Record_0[j]).1.supported(),
                    decreases entries@.len() - i,
                {
                    if !entries[i].1.is_supported() {
                        assert(!self@->Record_0[i as int].1.supported());
                        return false;
                    }
                    i = i + 1;
                }
                true
            },
            Value::DecimalFloat(_) => false,
            _ => true,
        }
    }
}

impl Value {
    /// Whether arrays and records are nested at most `depth` deep in the
    /// value.
    #[verifier::loop_isolation(false)]
    pub fn is_nested_within(&self, depth: usize) -> (r: bool)
        ensures
            r == self@.nested_within(depth as nat),
        decreases self,
    {
        match self {
            Value::Array(items) => {
                if depth == 0 {
                    return false;
                }
                proof {
                    lemma_item_views(items@, items@.len());
                }
                let mut i: usize = 0;
                while i < items.len()
                    invariant
                        i <= items@.len(),
                        forall|j: int|
                            0 <= j < i ==> (#[trigger] self@->Array_0[j]).nested_within(
                                (depth - 1) as nat,
                            ),
                    decreases items@.len() - i,
                {
                    if !items[i].is_nested_within(depth - 1) {
                        assert(!self@->Array_0[i as int].nested_within((depth - 1) as nat));
                        return false;
                    }
                    i = i + 1;
                }
                true
            },
            Value::Record(entries) => {
                if depth == 0 {
                    return false;
                }
                proof {
                    lemma_entry_views(entries@, entries@.len());
                }
                let mut i: usize = 0;
                while i < entries.len()
                    invariant
                        i <= entries@.len(),
                        forall|j: int|
                            0 <= j < i ==> (#[trigger] self@->Record_0[j]).1.nested_within(
                                (depth - 1) as nat,
                            ),
                    decreases entries@.len() - i,
                {
                    if !entries[i].1.is_nested_within(depth - 1) {
                        assert(!self@->Record_0[i as int].1.nested_within((depth - 1) as nat));
                        return false;
                    }
                    i = i + 1;
                }
                true
            },
            _ => true,
        }
    }

    /// Whether the value has bytes from which decoding gives its content
    /// back, at some depth of nesting.
    #[verifier::loop_isolation(false)]
    pub fn is_decodable(&self) -> (r: bool)
        ensures
            r == self@.decodable(),
        decreases self,
    {
        match self {
            Value::Blob(blob) => {
                let len = blob.len();
                let count = len / 8 + (if len % 8 != 0 {
                    1
                } else {
                    0
                });
                count <= usize::MAX / 64
            },
            Value::Text(text) => {
                // counted to learn that the count fits a machine word
                let len = text.as_str().unicode_len();
                true
            },
            Value::Array(items) => {
                proof {
                    lemma_item_views(items@, items@.len());
                }
                let mut i: usize = 0;
                while i < items.len()
                    invariant
                        i <= items@.len(),
                        forall|j: int| 0 <= j < i ==> (#[trigger] self@->Array_0[j]).decodable(),
                    decreases items@.len() - i,
                {
                    if !items[i].is_decodable() {
                        assert(!self@->Array_0[i as int].decodable());
                        return false;
                    }
                    i = i + 1;
                }
                true
            },
            Value::Record(entries) => {
                proof {
                    lemma_entry_views(entries@, entries@.len());
                }
                let mut i: usize = 0;
                while i < entries.len()
                    invariant
                        i <= entries@.len(),
                        forall|j: int|
                            0 <= j < i ==> (#[trigger] self@->Record_0[j]).1.decodable(),
                        forall|j: int|
                            0 <= j < i ==> (#[trigger] self@->Record_0[j]).0.len() <= usize::MAX,
                    decreases entries@.len() - i,
                {
                    let key_len = entries[i].0.as_str().unicode_len();
                    if !entries[i].1.is_decodable() {
                        assert(!self@->Record_0[i as int].1.decodable());
                        return false;
                    }
                    i = i + 1;
                }
                true
            },
            Value::Integer(_) => true,
            Value::DecimalFloat(_) => false,
            Value::Bool(_) => true,
        }
    }

    /// Whether the value is well formed: whether it is one that decoding can
    /// give back, at some depth of nesting.
    #[verifier::loop_isolation(false)]
    pub fn is_well_formed(&self) -> (r: bool)
        ensures
            r == self@.well_formed(),
        decreases self,
    {
        match self {
            Value::Blob(blob) => {
                let len = blob.len();
                let count = len / 8 + (if len % 8 != 0 {
                    1
                } else {
                    0
                });
                count <= usize::MAX / 64
            },
            Value::Text(text) => {
                // counted to learn that the count fits a machine word
                let len = text.as_str().unicode_len();
                true
            },
            Value::Array(items) => {
                proof {
                    lemma_item_views(items@, items@.len());
                }
                let mut i: usize = 0;
                while i < items.len()
                    invariant
                        i <= items@.len(),
                        forall|j: int| 0 <= j < i ==> (#[trigger] self@->Array_0[j]).well_formed(),
                    decreases items@.len() - i,
                {
                    if !items[i].is_well_formed() {
                        assert(!self@->Array_0[i as int].well_formed());
                        return false;
                    }
                    i = i + 1;
                }
                true
            },
            Value::Record(entries) => {
                proof {
                    lemma_entry_views(entries@, entries@.len());
                }
                if !has_distinct_keys(entries) {
                    return false;
                }
                let mut i: usize = 0;
                while i < entries.len()
                    invariant
                        i <= entries@.len(),
                        forall|j: int|
                            0 <= j < i ==> (#[trigger] self@->Record_0[j]).1.well_formed(),
                        forall|j: int|
                            0 <= j < i ==> (#[trigger] self@->Record_0[j]).0.len() <= usize::MAX,
                    decreases entries@.len() - i,
                {
                    let key_len = entries[i].0.as_str().unicode_len();
                    if !entries[i].1.is_well_formed() {
                        assert(!self@->Record_0[i as int].1.well_formed());
                        return false;
                    }
                    i = i + 1;
                }
                true
            },
            Value::Integer(_) => true,
            Value::DecimalFloat(_) => false,
            Value::Bool(_) => true,
        }
    }
}

impl Clone for Value {
    /// A copy with the same content, at every depth.
    #[verifier::loop_isolation(false)]
    fn clone(&self) -> (copy: Self)
        ensures
            copy@ == self@,
        decreases self,
    {
        match self {
            Value::Blob(blob) => Value::Blob(blob.clone()),
            Value::Text(text) => Value::Text(text.clone()),
            Value::Array(items) => {
                let mut copies: Vec<Value> = Vec::new();
                let mut i: usize = 0;
                while i < items.len()
                    invariant
                        i <= items@.len(),
                        copies@.len() == i,
                        forall|j: int| 0 <= j < i ==> (#[trigger] copies@[j])@ == items@[j]@,
                    decreases items@.len() - i,
                {
                    copies.push(items[i].clone());
                    i = i + 1;
                }
                proof {
                    lemma_item_views(items@, items@.len());
                    lemma_item_views(copies@, copies@.len());
                    assert(item_views(copies@, copies@.len()) =~= item_views(
                        items@,
                        items@.len(),
                    ));
                }
                Value::Array(copies)
            },
            Value::Record(entries) => {
                let mut copies: Vec<(String, Value)> = Vec::new();
                let mut i: usize = 0;
                while i < entries.len()
                    invariant
                        i <= entries@.len(),
                        copies@.len() == i,
                        forall|j: int|
                            0 <= j < i ==> (#[trigger] copies@[j]).0@ == entries@[j].0@
                                && copies@[j].1@ == entries@[j].1@,
                    decreases entries@.len() - i,
                {
                    copies.push((entries[i].0.clone(), entries[i].1.clone()));
                    i = i + 1;
                }
                proof {
                    lemma_entry_views(entries@, entries@.len());
                    lemma_entry_views(copies@, copies@.len());
                    assert(entry_views(copies@, copies@.len()) =~= entry_views(
                        entries@,
                        entries@.len(),
                    ));
                }
                Value::Record(copies)
            },
            Value::Integer(i) => Value::Integer(*i),
            Value::DecimalFloat(float) => Value::DecimalFloat(*float),
            Value::Bool(b) => Value::Bool(*b),
        }
    }
}

impl PartialEq for Value {
    /// Whether two values have the same content, at every depth: the same
    /// bits, scalar values, items in the same order, number or truth value,
    /// and for records the same keys with the same values under them, in
    /// whatever order the entries stand.
    #[verifier::loop_isolation(false)]
    fn eq(&self, other: &Self) -> (r: bool)
        decreases self,
    {
        match self {
            Value::Blob(a) => match other {
                Value::Blob(b) => *a == *b,
                _ => false,
            },
            Value::Text(a) => match other {
                Value::Text(b) => *a == *b,
                _ => false,
            },
            Value::Array(a) => match other {
                Value::Array(b) => {
                    proof {
                        lemma_item_views(a@, a@.len());
                        lemma_item_views(b@, b@.len());
                    }
                    if a.len() != b.len() {
                        return false;
                    }
                    let mut i: usize = 0;
                    while i < a.len()
                        invariant
                            i <= a@.len(),
                            forall|j: int|
                                0 <= j < i ==> (#[trigger] self@->Array_0[j]).same_as(
                                    other@->Array_0[j],
                                ),
                        decreases a@.len() - i,
                    {
                        if !(a[i] == b[i]) {
                            assert(!self@->Array_0[i as int].same_as(other@->Array_0[i as int]));
                            return false;
                        }
                        i = i + 1;
                    }
                    true
                },
                _ => false,
            },
            Value::Record(a) => match other {
                Value::Record(b) => {
                    let ghost left = self@->Record_0;
                    let ghost right = other@->Record_0;
                    proof {
                        lemma_entry_views(a@, a@.len());
                        lemma_entry_views(b@, b@.len());
                    }
                    let mut i: usize = 0;
                    while i < a.len()
                        invariant
                            i <= a@.len(),
                            forall|k: int|
                                0 <= k < i ==> key_index(right, (#[trigger] left[k]).0) is Some,
                            forall|k: int|
                                0 <= k < i && key_index(left, (#[trigger] left[k]).0) == Some(k)
                                    ==> left[k].1.same_as(
                                    right[key_index(right, left[k].0)->Some_0].1,
                                ),
                        decreases a@.len() - i,
                    {
                        proof {
                            lemma_key_index(right, left[i as int].0);
                            lemma_key_index(left, left[i as int].0);
                        }
                        match find_key(b, &a[i].0) {
                            None => {
                                return false;
                            },
                            Some(j) => {
                                let counted = find_key(a, &a[i].0);
                                if counted == Some(i) && !(a[i].1 == b[j].1) {
                                    assert(!left[i as int].1.same_as(right[j as int].1));
                                    return false;
                                }
                            },
                        }
                        i = i + 1;
                    }
                    let mut j: usize = 0;
                    while j < b.len()
                        invariant
                            j <= b@.len(),
                            forall|k: int|
                                0 <= k < j ==> key_index(left, (#[trigger] right[k]).0) is Some,
                        decreases b@.len() - j,
                    {
                        if find_key(a, &b[j].0).is_none() {
                            assert(key_index(left, right[j as int].0) is None);
                            return false;
                        }
                        j = j + 1;
                    }
                    proof {
                        assert forall|x: int, y: int|
                            0 <= x < left.len() && 0 <= y < right.len() && key_index(
                                left,
                                (#[trigger] left[x]).0,
                            ) == Some(x) && key_index(right, (#[trigger] right[y]).0) == Some(y)
                                && left[x].0 == right[y].0 implies left[x].1.same_as(
                            right[y].1,
                        ) by {}
                    }
                    true
                },
                _ => false,
            },
            Value::Integer(a) => match other {
                Value::Integer(b) => *a == *b,
                _ => false,
            },
            Value::DecimalFloat(a) => match other {
                Value::DecimalFloat(b) => a.exponent == b.exponent && a.coefficient
                    == b.coefficient,
                _ => false,
            },
            Value::Bool(a) => match other {
                Value::Bool(b) => *a == *b,
                _ => false,
            },
        }
    }
}

impl vstd::std_specs::cmp::PartialEqSpecImpl for Value {
    open spec fn obeys_eq_spec() -> bool {
        true
    }

    open spec fn eq_spec(&self, other: &Self) -> bool {
        self@.same_as(other@)
    }
}

} // verus!
