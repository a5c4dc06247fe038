//! Ordered association lists: sequences of key and value pairs in which the order of the
//! entries matters and a key is looked up by equality.

use vstd::prelude::*;

verus! {

/// Some entry of `entries` has the key `key`.
pub open spec fn has_key<K, V>(entries: Seq<(K, V)>, key: K) -> bool {
    exists|i: int| 0 <= i < entries.len() && (#[trigger] entries[i]).0 == key
}

/// `at` is the least index at which `entries` has the key `key`.
pub open spec fn is_first_index<K, V>(entries: Seq<(K, V)>, key: K, at: int) -> bool {
    &&& 0 <= at < entries.len()
    &&& entries[at].0 == key
    &&& forall|j: int| 0 <= j < at ==> (#[trigger] entries[j]).0 != key
}

/// The least index at which `entries` has the key `key`, where it has that key at all.
pub open spec fn first_index<K, V>(entries: Seq<(K, V)>, key: K) -> int {
    choose|at: int| is_first_index(entries, key, at)
}

/// No key occurs twice in `entries`.
pub open spec fn distinct_keys<K, V>(entries: Seq<(K, V)>) -> bool {
    forall|i: int, j: int|
        0 <= i < j < entries.len() ==> (#[trigger] entries[i]).0 != (#[trigger] entries[j]).0
}

/// The value that the first entry with the key `key` holds.
pub open spec fn value_of<K, V>(entries: Seq<(K, V)>, key: K) -> Option<V> {
    if has_key(entries, key) {
        Some(entries[first_index(entries, key)].1)
    } else {
        None
    }
}

/// `entries` after `key` was given the value `value` in place: an entry that has the key keeps
/// its position, a new key goes to the end.
pub open spec fn updated<K, V>(entries: Seq<(K, V)>, key: K, value: V) -> Seq<(K, V)> {
    if has_key(entries, key) {
        entries.update(first_index(entries, key), (key, value))
    } else {
        entries.push((key, value))
    }
}

/// `entries` after `key` was given the value `value` at the end: an entry that has the key
/// leaves its position.
pub open spec fn moved_to_back<K, V>(entries: Seq<(K, V)>, key: K, value: V) -> Seq<(K, V)> {
    if has_key(entries, key) {
        entries.remove(first_index(entries, key)).push((key, value))
    } else {
        entries.push((key, value))
    }
}

/// What is left of `pairs` when they are put into an empty list one after the other, each at
/// the end.
pub open spec fn collected<K, V>(pairs: Seq<(K, V)>) -> Seq<(K, V)>
    decreases pairs.len(),
{
    if pairs.len() == 0 {
        Seq::empty()
    } else {
        moved_to_back(collected(pairs.drop_last()), pairs.last().0, pairs.last().1)
    }
}

/// `entries` after each of `pairs` was put into it in place, one after the other.
pub open spec fn updated_all<K, V>(entries: Seq<(K, V)>, pairs: Seq<(K, V)>) -> Seq<(K, V)>
    decreases pairs.len(),
{
    if pairs.len() == 0 {
        entries
    } else {
        updated(updated_all(entries, pairs.drop_last()), pairs.last().0, pairs.last().1)
    }
}

/// The first index of a key is the only index that is one.
pub proof fn lemma_first_index<K, V>(entries: Seq<(K, V)>, key: K, at: int)
    requires
        is_first_index(entries, key, at),
    ensures
        has_key(entries, key),
        first_index(entries, key) == at,
{
    let chosen = first_index(entries, key);
    assert(is_first_index(entries, key, chosen));
    if chosen < at {
        assert(entries[chosen].0 != key);
    }
    if at < chosen {
        assert(entries[at].0 != key);
    }
}

/// A key that some entry has also has a first index.
pub proof fn lemma_has_key_first<K, V>(entries: Seq<(K, V)>, key: K)
    requires
        has_key(entries, key),
    ensures
        is_first_index(entries, key, first_index(entries, key)),
{
    let some = choose|i: int| 0 <= i < entries.len() && (#[trigger] entries[i]).0 == key;
    lemma_first_below(entries, key, some);
}

/// A key that stands at `bound` has a first index, at `bound` or before it.
proof fn lemma_first_below<K, V>(entries: Seq<(K, V)>, key: K, bound: int)
    requires
        0 <= bound < entries.len(),
        entries[bound].0 == key,
    ensures
        exists|at: int| is_first_index(entries, key, at),
    decreases bound,
{
    if exists|j: int| 0 <= j < bound && (#[trigger] entries[j]).0 == key {
        let j = choose|j: int| 0 <= j < bound && (#[trigger] entries[j]).0 == key;
        lemma_first_below(entries, key, j);
    } else {
        assert(is_first_index(entries, key, bound));
    }
}

/// Putting a pair at the end keeps the keys distinct.
pub proof fn lemma_moved_to_back_distinct<K, V>(entries: Seq<(K, V)>, key: K, value: V)
    requires
        distinct_keys(entries),
    ensures
        distinct_keys(moved_to_back(entries, key, value)),
        has_key(moved_to_back(entries, key, value), key),
{
    let after = moved_to_back(entries, key, value);
    if has_key(entries, key) {
        lemma_has_key_first(entries, key);
        let at = first_index(entries, key);
        let rest = entries.remove(at);
        assert forall|i: int| 0 <= i < rest.len() implies (#[trigger] rest[i]).0 != key by {
            if i < at {
                assert(rest[i] == entries[i]);
            } else {
                assert(rest[i] == entries[i + 1]);
            }
        }
        assert forall|i: int, j: int| 0 <= i < j < after.len() implies (#[trigger] after[i]).0
            != (#[trigger] after[j]).0 by {
            let a = if i < at { i } else { i + 1 };
            assert(after[i] == entries[a]);
            if j < rest.len() {
                let b = if j < at { j } else { j + 1 };
                assert(after[j] == entries[b]);
            } else {
                assert(rest[i].0 != key);
            }
        }
    } else {
        assert forall|i: int, j: int| 0 <= i < j < after.len() implies (#[trigger] after[i]).0
            != (#[trigger] after[j]).0 by {
            assert(after[i] == entries[i]);
            if j < entries.len() {
                assert(after[j] == entries[j]);
            }
        }
    }
    assert(after[after.len() - 1].0 == key);
}

/// Collected pairs have distinct keys.
pub proof fn lemma_collected_distinct<K, V>(pairs: Seq<(K, V)>)
    ensures
        distinct_keys(collected(pairs)),
    decreases pairs.len(),
{
    if pairs.len() > 0 {
        lemma_collected_distinct(pairs.drop_last());
        lemma_moved_to_back_distinct(
            collected(pairs.drop_last()),
            pairs.last().0,
            pairs.last().1,
        );
    }
}

/// What is collected from pairs is some of the pairs.
pub proof fn lemma_collected_members<K, V>(pairs: Seq<(K, V)>)
    ensures
        forall|i: int|
            0 <= i < collected(pairs).len() ==> pairs.contains(#[trigger] collected(pairs)[i]),
    decreases pairs.len(),
{
    if pairs.len() > 0 {
        let front = pairs.drop_last();
        let before = collected(front);
        let after = collected(pairs);
        lemma_collected_members(front);
        assert forall|i: int| 0 <= i < after.len() implies pairs.contains(#[trigger] after[i]) by {
            if i == after.len() - 1 {
                assert(after[i] == pairs[pairs.len() - 1]);
            } else {
                let from = if has_key(before, pairs.last().0) {
                    let at = first_index(before, pairs.last().0);
                    lemma_has_key_first(before, pairs.last().0);
                    if i < at {
                        i
                    } else {
                        i + 1
                    }
                } else {
                    i
                };
                assert(after[i] == before[from]);
                assert(front.contains(before[from]));
                let j = choose|j: int| 0 <= j < front.len() && front[j] == before[from];
                assert(pairs[j] == after[i]);
            }
        }
    }
}

/// Pairs whose keys are distinct are collected as they stand.
pub proof fn lemma_collected_of_distinct<K, V>(pairs: Seq<(K, V)>)
    requires
        distinct_keys(pairs),
    ensures
        collected(pairs) == pairs,
    decreases pairs.len(),
{
    if pairs.len() > 0 {
        let front = pairs.drop_last();
        assert(distinct_keys(front)) by {
            assert forall|i: int, j: int| 0 <= i < j < front.len() implies (#[trigger] front[i]).0
                != (#[trigger] front[j]).0 by {
                assert(front[i] == pairs[i] && front[j] == pairs[j]);
            }
        }
        lemma_collected_of_distinct(front);
        assert(!has_key(front, pairs.last().0)) by {
            if has_key(front, pairs.last().0) {
                let i = choose|i: int|
                    0 <= i < front.len() && (#[trigger] front[i]).0 == pairs.last().0;
                assert(front[i] == pairs[i]);
                assert(pairs[i].0 != pairs[pairs.len() - 1].0);
            }
        }
        assert(front.push(pairs.last()) =~= pairs);
    } else {
        assert(pairs =~= Seq::empty());
    }
}

/// `at` is the greatest index at which `entries` has the key `key`.
pub open spec fn is_last_index<K, V>(entries: Seq<(K, V)>, key: K, at: int) -> bool {
    &&& 0 <= at < entries.len()
    &&& entries[at].0 == key
    &&& forall|j: int| at < j < entries.len() ==> (#[trigger] entries[j]).0 != key
}

/// A key that some entry has also has a last index.
pub proof fn lemma_has_key_last<K, V>(entries: Seq<(K, V)>, key: K) -> (at: int)
    requires
        has_key(entries, key),
    ensures
        is_last_index(entries, key, at),
    decreases entries.len(),
{
    let some = choose|i: int| 0 <= i < entries.len() && (#[trigger] entries[i]).0 == key;
    if entries.last().0 == key {
        entries.len() - 1
    } else {
        let front = entries.drop_last();
        assert(front[some] == entries[some]);
        let at = lemma_has_key_last(front, key);
        assert(front[at] == entries[at]);
        assert forall|j: int| at < j < entries.len() implies (#[trigger] entries[j]).0 != key by {
            if j < front.len() {
                assert(front[j] == entries[j]);
            }
        }
        at
    }
}

/// The keys of a list after a key was given a value in place: those it had, and that key.
pub proof fn lemma_updated_keys<K, V>(entries: Seq<(K, V)>, key: K, value: V, other: K)
    ensures
        has_key(updated(entries, key, value), other) <==> has_key(entries, other) || other == key,
{
    let after = updated(entries, key, value);
    if has_key(entries, key) {
        lemma_has_key_first(entries, key);
        let at = first_index(entries, key);
        assert forall|i: int| 0 <= i < entries.len() implies (#[trigger] after[i]).0
            == entries[i].0 by {}
        if has_key(entries, other) {
            let i = choose|i: int| 0 <= i < entries.len() && (#[trigger] entries[i]).0 == other;
            assert(after[i].0 == other);
        }
        if has_key(after, other) {
            let i = choose|i: int| 0 <= i < after.len() && (#[trigger] after[i]).0 == other;
            assert(entries[i].0 == other);
        }
    } else {
        assert(after[entries.len() as int].0 == key);
        if has_key(entries, other) {
            let i = choose|i: int| 0 <= i < entries.len() && (#[trigger] entries[i]).0 == other;
            assert(after[i].0 == other);
        }
        if has_key(after, other) && other != key {
            let i = choose|i: int| 0 <= i < after.len() && (#[trigger] after[i]).0 == other;
            assert(entries[i].0 == other);
        }
    }
}

/// The values of a list after a key was given a value in place: the new value under that key,
/// and under every other key the value it had.
pub proof fn lemma_updated_values<K, V>(entries: Seq<(K, V)>, key: K, value: V, other: K)
    ensures
        value_of(updated(entries, key, value), other) == if other == key {
            Some(value)
        } else {
            value_of(entries, other)
        },
{
    let after = updated(entries, key, value);
    lemma_updated_keys(entries, key, value, other);
    if has_key(entries, key) {
        lemma_has_key_first(entries, key);
        let at = first_index(entries, key);
        assert forall|i: int| 0 <= i < entries.len() implies (#[trigger] after[i]).0
            == entries[i].0 by {}
        if has_key(entries, other) {
            lemma_has_key_first(entries, other);
            let first = first_index(entries, other);
            assert(is_first_index(after, other, first)) by {
                assert forall|j: int| 0 <= j < first implies (#[trigger] after[j]).0 != other by {
                    assert(entries[j].0 != other);
                }
            }
            lemma_first_index(after, other, first);
            if other == key {
                assert(first == at);
            } else {
                assert(first != at);
            }
        }
    } else {
        if other == key {
            assert(is_first_index(after, other, entries.len() as int)) by {
                assert forall|j: int| 0 <= j < entries.len() implies (#[trigger] after[j]).0
                    != other by {
                    assert(after[j] == entries[j]);
                    assert(entries[j].0 != key);
                }
            }
            lemma_first_index(after, other, entries.len() as int);
        } else if has_key(entries, other) {
            lemma_has_key_first(entries, other);
            let first = first_index(entries, other);
            assert(is_first_index(after, other, first)) by {
                assert(after[first] == entries[first]);
                assert forall|j: int| 0 <= j < first implies (#[trigger] after[j]).0 != other by {
                    assert(after[j] == entries[j]);
                }
            }
            lemma_first_index(after, other, first);
        }
    }
}

/// Giving a key a value in place keeps the keys distinct.
pub proof fn lemma_updated_distinct<K, V>(entries: Seq<(K, V)>, key: K, value: V)
    requires
        distinct_keys(entries),
    ensures
        distinct_keys(updated(entries, key, value)),
{
    let after = updated(entries, key, value);
    if has_key(entries, key) {
        lemma_has_key_first(entries, key);
        assert forall|i: int, j: int| 0 <= i < j < after.len() implies (#[trigger] after[i]).0
            != (#[trigger] after[j]).0 by {
            assert(after[i].0 == entries[i].0 && after[j].0 == entries[j].0);
        }
    } else {
        assert forall|i: int, j: int| 0 <= i < j < after.len() implies (#[trigger] after[i]).0
            != (#[trigger] after[j]).0 by {
            assert(after[i] == entries[i]);
            if j < entries.len() {
                assert(after[j] == entries[j]);
            }
        }
    }
}

/// The keys of a list after pairs were put into it: those it had, and those of the pairs.
pub proof fn lemma_updated_all_keys<K, V>(entries: Seq<(K, V)>, pairs: Seq<(K, V)>, key: K)
    ensures
        has_key(updated_all(entries, pairs), key) <==> has_key(entries, key) || has_key(pairs, key),
    decreases pairs.len(),
{
    if pairs.len() > 0 {
        let front = pairs.drop_last();
        lemma_updated_all_keys(entries, front, key);
        lemma_updated_keys(updated_all(entries, front), pairs.last().0, pairs.last().1, key);
        if has_key(front, key) {
            let i = choose|i: int| 0 <= i < front.len() && (#[trigger] front[i]).0 == key;
            assert(pairs[i] == front[i]);
        }
        if has_key(pairs, key) && pairs.last().0 != key {
            let i = choose|i: int| 0 <= i < pairs.len() && (#[trigger] pairs[i]).0 == key;
            assert(front[i] == pairs[i]);
        }
        if pairs.last().0 == key {
            assert(pairs[pairs.len() - 1].0 == key);
        }
    }
}

/// Under a key that the pairs have, a list holds after they were put into it the value of the
/// last of them with that key.
pub proof fn lemma_updated_all_last_wins<K, V>(
    entries: Seq<(K, V)>,
    pairs: Seq<(K, V)>,
    key: K,
    at: int,
)
    requires
        is_last_index(pairs, key, at),
    ensures
        value_of(updated_all(entries, pairs), key) == Some(pairs[at].1),
    decreases pairs.len(),
{
    let front = pairs.drop_last();
    lemma_updated_values(updated_all(entries, front), pairs.last().0, pairs.last().1, key);
    if at < pairs.len() - 1 {
        assert(pairs[pairs.len() - 1].0 != key);
        assert(front[at] == pairs[at]);
        assert forall|j: int| at < j < front.len() implies (#[trigger] front[j]).0 != key by {
            assert(front[j] == pairs[j]);
        }
        lemma_updated_all_last_wins(entries, front, key, at);
    }
}

/// Putting pairs into a list in place keeps the keys distinct.
pub proof fn lemma_updated_all_distinct<K, V>(entries: Seq<(K, V)>, pairs: Seq<(K, V)>)
    requires
        distinct_keys(entries),
    ensures
        distinct_keys(updated_all(entries, pairs)),
    decreases pairs.len(),
{
    if pairs.len() > 0 {
        lemma_updated_all_distinct(entries, pairs.drop_last());
        lemma_updated_distinct(
            updated_all(entries, pairs.drop_last()),
            pairs.last().0,
            pairs.last().1,
        );
    }
}

/// Putting pairs in place one list after the other is putting their concatenation.
pub proof fn lemma_updated_all_add<K, V>(entries: Seq<(K, V)>, a: Seq<(K, V)>, b: Seq<(K, V)>)
    ensures
        updated_all(entries, a + b) == updated_all(updated_all(entries, a), b),
    decreases b.len(),
{
    if b.len() == 0 {
        assert(a + b =~= a);
    } else {
        lemma_updated_all_add(entries, a, b.drop_last());
        assert((a + b).drop_last() =~= a + b.drop_last());
        assert((a + b).last() == b.last());
    }
}

/// The index of the first entry of `entries` whose key is `key`.
pub fn find<V: DeepView>(entries: &Vec<(String, V)>, key: &String) -> (out: Option<usize>)
    ensures
        match out {
            Some(at) => is_first_index(entries.deep_view(), key@, at as int),
            None => !has_key(entries.deep_view(), key@),
        },
{
    let mut i: usize = 0;
    while i < entries.len()
        invariant
            i <= entries.len(),
            forall|j: int| 0 <= j < i ==> (#[trigger] entries.deep_view()[j]).0 != key@,
        decreases entries.len() - i,
    {
        if entries[i].0 == *key {
            proof {
                assert(entries.deep_view()[i as int].0 == key@);
            }
            return Some(i);
        }
        i += 1;
    }
    None
}

/// Gives `key` the value `value` in place: an entry that has the key keeps its position, a new
/// key goes to the end.
pub fn put<V: DeepView>(entries: &mut Vec<(String, V)>, key: String, value: V)
    ensures
        final(entries).deep_view() == updated(old(entries).deep_view(), key@, value.deep_view()),
{
    match find(entries, &key) {
        Some(at) => {
            proof {
                lemma_first_index(entries.deep_view(), key@, at as int);
            }
            entries.set(at, (key, value));
            proof {
                assert(entries.deep_view() =~= old(entries).deep_view().update(
                    at as int,
                    (key@, value.deep_view()),
                ));
            }
        },
        None => {
            entries.push((key, value));
            proof {
                assert(entries.deep_view() =~= old(entries).deep_view().push(
                    (key@, value.deep_view()),
                ));
            }
        },
    }
}

} // verus!
