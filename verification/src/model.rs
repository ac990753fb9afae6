//! The value tree as mathematics: what a [`crate::value::Value`] holds.

use vstd::prelude::*;

verus! {

/// A JSON value over sequences. An object is the sequence of its entries
/// in the order in which their keys first came in, each key once.
pub enum Json {
    Null,
    Bool(bool),
    /// A number that is no 64-bit integer, as the literal that denotes it.
    Float(Seq<char>),
    Integer(i64),
    String(Seq<char>),
    Sequence(Seq<Json>),
    Object(Seq<(Seq<char>, Json)>),
}

/// The entries of an object.
pub type Entries = Seq<(Seq<char>, Json)>;

/// Whether one of the entries has the key `key`.
pub open spec fn has_key(entries: Entries, key: Seq<char>) -> bool {
    exists|i: int| 0 <= i < entries.len() && (#[trigger] entries[i]).0 == key
}

/// The place of the entry with the key `key`, where there is one.
pub open spec fn index_of(entries: Entries, key: Seq<char>) -> int {
    choose|i: int| 0 <= i < entries.len() && (#[trigger] entries[i]).0 == key
}

/// Each key occurs once.
pub open spec fn unique_keys(entries: Entries) -> bool {
    forall|i: int, j: int|
        0 <= i < j < entries.len() ==> (#[trigger] entries[i]).0 != (#[trigger] entries[j]).0
}

/// The value under the key `key`, if any.
pub open spec fn lookup(entries: Entries, key: Seq<char>) -> Option<Json> {
    if has_key(entries, key) {
        Some(entries[index_of(entries, key)].1)
    } else {
        None
    }
}

/// Whether two values are equal: alike in kind and content, arrays place
/// by place, objects key by key whatever the order of their entries.
pub open spec fn same(a: Json, b: Json) -> bool
    decreases a, 0nat,
{
    match a {
        Json::Sequence(x) => b matches Json::Sequence(y) && x.len() == y.len() && forall|i: int|
            0 <= i < x.len() ==> same(#[trigger] x[i], y[i]),
        Json::Object(x) => b matches Json::Object(y) && same_entries(x, y),
        _ => a == b,
    }
}

/// Whether two objects are equal: as many entries, and under every key of
/// the one an equal value in the other.
pub open spec fn same_entries(x: Entries, y: Entries) -> bool
    decreases x, 1nat,
{
    x.len() == y.len() && forall|i: int|
        0 <= i < x.len() ==> has_key(y, (#[trigger] x[i]).0) && same(
            x[i].1,
            y[index_of(y, x[i].0)].1,
        )
}

/// The entries with `value` under `key`: in the place of the old value where
/// the key was there, else at the end.
pub open spec fn insert(entries: Entries, key: Seq<char>, value: Json) -> Entries {
    if has_key(entries, key) {
        entries.update(index_of(entries, key), (key, value))
    } else {
        entries.push((key, value))
    }
}

/// The entries without the one that has the key `key`, if there is one; the
/// others keep their order.
pub open spec fn remove(entries: Entries, key: Seq<char>) -> Entries {
    if has_key(entries, key) {
        entries.remove(index_of(entries, key))
    } else {
        entries
    }
}

/// The entries of `target` with those of the first `n` of `source` put in,
/// one after the other.
pub open spec fn merge_first(target: Entries, source: Entries, n: nat) -> Entries
    decreases n,
{
    if n == 0 {
        target
    } else {
        insert(
            merge_first(target, source, (n - 1) as nat),
            source[n - 1].0,
            source[n - 1].1,
        )
    }
}

/// The entries of `target` with those of `source` put in, one after the
/// other: a key of both keeps its place and takes the value of `source`.
pub open spec fn merge(target: Entries, source: Entries) -> Entries {
    merge_first(target, source, source.len())
}

/// Where the key is unique, its place is the one place that holds it.
pub proof fn lemma_index_of(entries: Entries, key: Seq<char>, i: int)
    requires
        unique_keys(entries),
        0 <= i < entries.len(),
        entries[i].0 == key,
    ensures
        has_key(entries, key),
        index_of(entries, key) == i,
{
    let j = index_of(entries, key);
    if j < i {
        assert(entries[j].0 != entries[i].0);
    } else if i < j {
        assert(entries[i].0 != entries[j].0);
    }
}

/// Putting an entry in keeps the keys unique, and the new value is found
/// under its key while every other key keeps its value.
pub proof fn lemma_insert(entries: Entries, key: Seq<char>, value: Json)
    requires
        unique_keys(entries),
    ensures
        unique_keys(insert(entries, key, value)),
        lookup(insert(entries, key, value), key) == Some(value),
        forall|other: Seq<char>|
            other != key ==> lookup(insert(entries, key, value), other) == lookup(entries, other),
        insert(entries, key, value).len() == if has_key(entries, key) {
            entries.len()
        } else {
            entries.len() + 1
        },
{
    let after = insert(entries, key, value);
    let at: int = if has_key(entries, key) {
        index_of(entries, key)
    } else {
        entries.len() as int
    };
    assert(after[at] == (key, value));
    assert forall|i: int, j: int| 0 <= i < j < after.len() implies (#[trigger] after[i]).0 != (
    #[trigger] after[j]).0 by {
        if has_key(entries, key) {
            assert(entries[i].0 != entries[j].0);
        } else {
            if j < entries.len() {
                assert(entries[i].0 != entries[j].0);
            } else {
                assert(after[i] == entries[i]);
            }
        }
    }
    lemma_index_of(after, key, at);
    assert forall|other: Seq<char>| other != key implies lookup(after, other) == lookup(
        entries,
        other,
    ) by {
        if has_key(entries, other) {
            let i = index_of(entries, other);
            assert(after[i] == entries[i]);
            lemma_index_of(after, other, i);
        } else if has_key(after, other) {
            let i = index_of(after, other);
            assert(i != at);
            assert(entries[i].0 == other);
        }
    }
}

/// Taking an entry out keeps the keys unique; its key is then no key of
/// the object, and every other key keeps its value.
pub proof fn lemma_remove(entries: Entries, key: Seq<char>)
    requires
        unique_keys(entries),
    ensures
        unique_keys(remove(entries, key)),
        !has_key(remove(entries, key), key),
        forall|other: Seq<char>|
            other != key ==> lookup(remove(entries, key), other) == lookup(entries, other),
{
    let after = remove(entries, key);
    if has_key(entries, key) {
        let at = index_of(entries, key);
        assert forall|i: int| 0 <= i < after.len() implies #[trigger] after[i] == entries[if i
            < at {
            i
        } else {
            i + 1
        }] by {}
        assert forall|i: int, j: int| 0 <= i < j < after.len() implies (#[trigger] after[i]).0 != (
        #[trigger] after[j]).0 by {
            let a = if i < at { i } else { i + 1 };
            let b = if j < at { j } else { j + 1 };
            assert(entries[a].0 != entries[b].0);
        }
        if has_key(after, key) {
            let i = index_of(after, key);
            let a = if i < at { i } else { i + 1 };
            assert(after[i] == entries[a]);
            lemma_index_of(entries, key, a);
        }
        assert forall|other: Seq<char>| other != key implies lookup(after, other) == lookup(
            entries,
            other,
        ) by {
            if has_key(entries, other) {
                let a = index_of(entries, other);
                let i = if a < at { a } else { a - 1 };
                assert(after[i] == entries[a]);
                lemma_index_of(after, other, i);
            } else if has_key(after, other) {
                let i = index_of(after, other);
                let a = if i < at { i } else { i + 1 };
                assert(after[i] == entries[a]);
            }
        }
    }
}

} // verus!
