//! Lists of keyed entries, in which the last entry with a key is the one that
//! counts.

use vstd::prelude::*;

verus! {

/// The index of the last entry with the given key, or -1 where there is none.
pub open spec fn last_index<V>(entries: Seq<(Seq<char>, V)>, key: Seq<char>) -> int
    decreases entries.len(),
{
    if entries.len() == 0 {
        -1
    } else if entries.last().0 == key {
        entries.len() - 1
    } else {
        last_index(entries.drop_last(), key)
    }
}

/// What the list gives a key: the value of the last entry with that key.
pub open spec fn lookup<V>(entries: Seq<(Seq<char>, V)>, key: Seq<char>) -> Option<V> {
    let at = last_index(entries, key);
    if at >= 0 {
        Some(entries[at].1)
    } else {
        None
    }
}

/// The list with the key bound to a value: in place where the key is there,
/// at the end where it is not.
pub open spec fn bound<V>(entries: Seq<(Seq<char>, V)>, key: Seq<char>, value: V) -> Seq<
    (Seq<char>, V),
> {
    let at = last_index(entries, key);
    if at >= 0 {
        entries.update(at, (key, value))
    } else {
        entries.push((key, value))
    }
}

/// No key occurs twice.
pub open spec fn distinct_keys<V>(entries: Seq<(Seq<char>, V)>) -> bool {
    forall|i: int, j: int|
        0 <= i < j < entries.len() ==> (#[trigger] entries[i]).0 != (#[trigger] entries[j]).0
}

/// `last_index` points at an entry with the key, and no later entry has it.
pub proof fn lemma_last_index<V>(entries: Seq<(Seq<char>, V)>, key: Seq<char>)
    ensures
        -1 <= last_index(entries, key) < entries.len(),
        last_index(entries, key) >= 0 ==> entries[last_index(entries, key)].0 == key,
        forall|i: int|
            last_index(entries, key) < i < entries.len() ==> (#[trigger] entries[i]).0 != key,
    decreases entries.len(),
{
    if entries.len() > 0 && entries.last().0 != key {
        lemma_last_index(entries.drop_last(), key);
        assert forall|i: int| last_index(entries, key) < i < entries.len() implies (
        #[trigger] entries[i]).0 != key by {
            if i < entries.len() - 1 {
                assert(entries.drop_last()[i] == entries[i]);
            }
        }
    }
}

/// Where no key occurs twice, an entry with the key is the one `last_index`
/// points at.
pub proof fn lemma_last_index_unique<V>(entries: Seq<(Seq<char>, V)>, key: Seq<char>, at: int)
    requires
        distinct_keys(entries),
        0 <= at < entries.len(),
        entries[at].0 == key,
    ensures
        last_index(entries, key) == at,
{
    lemma_last_index(entries, key);
    let found = last_index(entries, key);
    if found < at {
        assert(entries[at].0 != key);
    }
}

/// Binding a key keeps the keys distinct, and is seen by `lookup`.
pub proof fn lemma_bound<V>(entries: Seq<(Seq<char>, V)>, key: Seq<char>, value: V)
    requires
        distinct_keys(entries),
    ensures
        distinct_keys(bound(entries, key, value)),
        lookup(bound(entries, key, value), key) == Some(value),
        forall|other: Seq<char>|
            other != key ==> lookup(bound(entries, key, value), other) == lookup(entries, other),
{
    lemma_last_index(entries, key);
    let at = last_index(entries, key);
    let after = bound(entries, key, value);
    assert(distinct_keys(after)) by {
        assert forall|i: int, j: int| 0 <= i < j < after.len() implies (#[trigger] after[i]).0 != (
        #[trigger] after[j]).0 by {
            if at >= 0 {
                assert(after[i].0 == entries[i].0);
                assert(after[j].0 == entries[j].0);
            } else if j == entries.len() {
                assert(after[i].0 == entries[i].0);
                assert(entries[i].0 != key);
            } else {
                assert(after[i].0 == entries[i].0);
                assert(after[j].0 == entries[j].0);
            }
        }
    }
    let here = if at >= 0 { at } else { entries.len() as int };
    lemma_last_index_unique(after, key, here);
    assert forall|other: Seq<char>| other != key implies lookup(after, other) == lookup(
        entries,
        other,
    ) by {
        lemma_last_index(entries, other);
        let was = last_index(entries, other);
        if was >= 0 {
            assert(after[was] == entries[was]);
            lemma_last_index_unique(after, other, was);
        } else {
            lemma_last_index(after, other);
            let now = last_index(after, other);
            if now >= 0 {
                if now < entries.len() {
                    assert(after[now].0 == entries[now].0);
                    assert(entries[now].0 != other);
                }
            }
        }
    }
}

} // verus!
