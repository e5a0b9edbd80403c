//! Records: entries of a text key and a value, each key held once, kept in
//! the order in which the keys first came.

use vstd::prelude::*;
use crate::value::{distinct_keys, entry_views, lemma_entry_views, Value, ValueView};

verus! {

/// The view of a record's entries.
pub open spec fn record_view(entries: Vec<(String, Value)>) -> Seq<(Seq<char>, ValueView)> {
    entry_views(entries@, entries@.len())
}

/// The entries of `pairs` put into an empty record one after another.
pub open spec fn record_of(pairs: Seq<(Seq<char>, ValueView)>) -> Seq<(Seq<char>, ValueView)>
    decreases pairs.len(),
{
    if pairs.len() == 0 {
        Seq::empty()
    } else {
        insert_entry(record_of(pairs.drop_last()), pairs.last().0, pairs.last().1)
    }
}

/// The index of the last entry of `entries` that has `key`, where there is
/// one.
pub open spec fn key_index(entries: Seq<(Seq<char>, ValueView)>, key: Seq<char>) -> Option<int>
    decreases entries.len(),
{
    if entries.len() == 0 {
        None
    } else if entries.last().0 == key {
        Some(entries.len() - 1)
    } else {
        key_index(entries.drop_last(), key)
    }
}

/// `entries` with `value` under `key`: in place of the last entry that has
/// `key`, where there is one, and as a new last entry where there is none.
pub open spec fn insert_entry(
    entries: Seq<(Seq<char>, ValueView)>,
    key: Seq<char>,
    value: ValueView,
) -> Seq<(Seq<char>, ValueView)> {
    match key_index(entries, key) {
        Some(i) => entries.update(i, (key, value)),
        None => entries.push((key, value)),
    }
}

/// The index of a key is an index at which the key stands and behind which
/// it does not; a key has none where it stands nowhere.
pub proof fn lemma_key_index(entries: Seq<(Seq<char>, ValueView)>, key: Seq<char>)
    ensures
        match key_index(entries, key) {
            Some(i) => {
                &&& 0 <= i < entries.len()
                &&& entries[i].0 == key
                &&& forall|j: int| i < j < entries.len() ==> (#[trigger] entries[j]).0 != key
            },
            None => forall|j: int| 0 <= j < entries.len() ==> (#[trigger] entries[j]).0 != key,
        },
    decreases entries.len(),
{
    if entries.len() > 0 && entries.last().0 != key {
        let front = entries.drop_last();
        lemma_key_index(front, key);
        match key_index(front, key) {
            Some(i) => {
                assert(entries[i] == front[i]);
                assert forall|j: int| i < j < entries.len() implies (#[trigger] entries[j]).0
                    != key by {
                    if j < front.len() {
                        assert(front[j] == entries[j]);
                    }
                }
            },
            None => {
                assert forall|j: int| 0 <= j < entries.len() implies (#[trigger] entries[j]).0
                    != key by {
                    if j < front.len() {
                        assert(front[j] == entries[j]);
                    }
                }
            },
        }
    }
}

/// The index of the last entry of `entries` that has `key`, where there is
/// one.
#[verifier::loop_isolation(false)]
pub fn find_key(entries: &Vec<(String, Value)>, key: &String) -> (r: Option<usize>)
    ensures
        match r {
            Some(i) => key_index(record_view(*entries), key@) == Some(i as int),
            None => key_index(record_view(*entries), key@) is None,
        },
{
    let ghost views = record_view(*entries);
    proof {
        lemma_entry_views(entries@, entries@.len());
        lemma_key_index(views, key@);
    }
    let mut found: Option<usize> = None;
    let mut i: usize = 0;
    while i < entries.len()
        invariant
            i <= entries@.len(),
            match found {
                Some(at) => {
                    &&& at < i
                    &&& views[at as int].0 == key@
                    &&& forall|j: int| at < j < i ==> (#[trigger] views[j]).0 != key@
                },
                None => forall|j: int| 0 <= j < i ==> (#[trigger] views[j]).0 != key@,
            },
        decreases entries@.len() - i,
    {
        if entries[i].0 == *key {
            found = Some(i);
        }
        i = i + 1;
    }
    proof {
        match found {
            Some(at) => {
                assert(views[at as int].0 == key@);
            },
            None => {},
        }
    }
    found
}

/// Puts `value` under `key` into a record: in place of the last entry that
/// has `key`, where there is one, and as a new last entry where there is
/// none. Keys that are pairwise different stay so.
pub fn record_insert(entries: &mut Vec<(String, Value)>, key: String, value: Value)
    ensures
        record_view(*final(entries)) == insert_entry(record_view(*old(entries)), key@, value@),
        distinct_keys(record_view(*old(entries))) ==> distinct_keys(record_view(*final(entries))),
{
    let ghost before = record_view(*entries);
    proof {
        lemma_entry_views(entries@, entries@.len());
        lemma_key_index(before, key@);
        if distinct_keys(before) {
            lemma_insert_distinct(before, key@, value@);
        }
    }
    match find_key(entries, &key) {
        Some(i) => {
            entries.set(i, (key, value));
            proof {
                lemma_entry_views(entries@, entries@.len());
                assert(record_view(*entries) =~= before.update(i as int, (key@, value@)));
            }
        },
        None => {
            entries.push((key, value));
            proof {
                lemma_entry_views(entries@, entries@.len());
                assert(record_view(*entries) =~= before.push((key@, value@)));
            }
        },
    }
}

/// The index of a key goes by the keys alone.
pub proof fn lemma_key_index_by_keys(
    left: Seq<(Seq<char>, ValueView)>,
    right: Seq<(Seq<char>, ValueView)>,
    key: Seq<char>,
)
    requires
        left.len() == right.len(),
        forall|i: int| 0 <= i < left.len() ==> (#[trigger] left[i]).0 == right[i].0,
    ensures
        key_index(left, key) == key_index(right, key),
    decreases left.len(),
{
    if left.len() > 0 {
        assert(left[left.len() - 1].0 == right[left.len() - 1].0);
        assert forall|i: int| 0 <= i < left.drop_last().len() implies (#[trigger] left.drop_last()[i]).0
            == right.drop_last()[i].0 by {
            assert(left[i].0 == right[i].0);
        }
        lemma_key_index_by_keys(left.drop_last(), right.drop_last(), key);
    }
}

/// Insertion under one key leaves the entries of the other keys as they are
/// and where they are.
pub proof fn lemma_insert_other_key(
    entries: Seq<(Seq<char>, ValueView)>,
    key: Seq<char>,
    value: ValueView,
    other: Seq<char>,
)
    requires
        other != key,
    ensures
        key_index(insert_entry(entries, key, value), other) == key_index(entries, other),
        key_index(entries, other) matches Some(i) ==> insert_entry(entries, key, value)[i]
            == entries[i],
{
    let now = insert_entry(entries, key, value);
    lemma_key_index(entries, key);
    lemma_key_index(entries, other);
    match key_index(entries, key) {
        Some(at) => {
            assert forall|i: int| 0 <= i < now.len() implies (#[trigger] now[i]).0
                == entries[i].0 by {}
            lemma_key_index_by_keys(now, entries, other);
        },
        None => {
            assert(now.drop_last() == entries);
        },
    }
}

/// What a record built by insertion holds under a key is what the last of
/// the entries with that key held, and it holds nothing under a key that no
/// entry had.
pub proof fn lemma_record_of_lookup(pairs: Seq<(Seq<char>, ValueView)>, key: Seq<char>)
    ensures
        match key_index(pairs, key) {
            Some(j) => key_index(record_of(pairs), key) matches Some(i) && record_of(pairs)[i].1
                == pairs[j].1,
            None => key_index(record_of(pairs), key) is None,
        },
    decreases pairs.len(),
{
    if pairs.len() > 0 {
        let front = pairs.drop_last();
        let last = pairs.last();
        let before = record_of(front);
        let now = record_of(pairs);
        lemma_record_of_lookup(front, key);
        if last.0 == key {
            lemma_key_index(before, key);
            lemma_key_index(now, key);
            lemma_record_of_distinct(pairs);
            match key_index(before, key) {
                Some(at) => {
                    assert(now[at] == (key, last.1));
                    let found = key_index(now, key)->Some_0;
                    if found != at {
                        if found < at {
                            assert(now[found].0 != now[at].0);
                        } else {
                            assert(now[at].0 != now[found].0);
                        }
                    }
                },
                None => {
                    assert(now.last() == (key, last.1));
                },
            }
        } else {
            lemma_insert_other_key(before, last.0, last.1, key);
            lemma_key_index(front, key);
            match key_index(front, key) {
                Some(j) => {
                    assert(front[j] == pairs[j]);
                },
                None => {},
            }
        }
    }
}

/// Every record built by insertion holds each key once.
pub proof fn lemma_record_of_distinct(pairs: Seq<(Seq<char>, ValueView)>)
    ensures
        distinct_keys(record_of(pairs)),
    decreases pairs.len(),
{
    if pairs.len() > 0 {
        lemma_record_of_distinct(pairs.drop_last());
        lemma_insert_distinct(record_of(pairs.drop_last()), pairs.last().0, pairs.last().1);
    }
}

/// Insertion keeps the keys pairwise different.
pub proof fn lemma_insert_distinct(
    entries: Seq<(Seq<char>, ValueView)>,
    key: Seq<char>,
    value: ValueView,
)
    requires
        distinct_keys(entries),
    ensures
        distinct_keys(insert_entry(entries, key, value)),
{
    let now = insert_entry(entries, key, value);
    lemma_key_index(entries, key);
    assert forall|a: int, b: int| 0 <= a < b < now.len() implies (#[trigger] now[a]).0 != (
    #[trigger] now[b]).0 by {
        match key_index(entries, key) {
            Some(i) => {
                assert(now[a].0 == entries[a].0);
                assert(now[b].0 == entries[b].0);
            },
            None => {
                if b < entries.len() {
                    assert(now[a] == entries[a]);
                    assert(now[b] == entries[b]);
                } else {
                    assert(now[a] == entries[a]);
                }
            },
        }
    }
}

/// Whether the keys of `entries` are pairwise different.
#[verifier::loop_isolation(false)]
pub fn has_distinct_keys(entries: &Vec<(String, Value)>) -> (r: bool)
    ensures
        r == distinct_keys(record_view(*entries)),
{
    let ghost views = record_view(*entries);
    proof {
        lemma_entry_views(entries@, entries@.len());
    }
    let mut i: usize = 0;
    while i < entries.len()
        invariant
            i <= entries@.len(),
            forall|a: int, b: int|
                0 <= a < b < i ==> (#[trigger] views[a]).0 != (#[trigger] views[b]).0,
        decreases entries@.len() - i,
    {
        let mut j: usize = 0;
        while j < i
            invariant
                j <= i < entries@.len(),
                forall|a: int| 0 <= a < j ==> (#[trigger] views[a]).0 != views[i as int].0,
            decreases i - j,
        {
            if entries[j].0 == entries[i].0 {
                assert(views[j as int].0 == views[i as int].0);
                return false;
            }
            j = j + 1;
        }
        i = i + 1;
    }
    true
}

} // verus!
