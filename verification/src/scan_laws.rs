//! What holds of scanning: the expand-key list of a mapping has exactly the marked keys that
//! lie in it under mappings with a text for their value, whatever their depth.

use crate::assoc::{
    distinct_keys, has_key, is_last_index, lemma_has_key_last, lemma_updated_all_distinct,
    lemma_updated_all_keys, lemma_updated_all_last_wins, value_of,
};
use crate::marker::is_marked;
use crate::scan::{entry_pairs, marked_pairs, nested_pairs, own_pair, scanned};
use crate::tree::TreeView;
use vstd::prelude::*;

verus! {

/// The entry that `path` leads to in a mapping: the first index of the path picks an entry of
/// the mapping, and each further index an entry of the mapping that is the value of the entry
/// before. A path of `n + 1` indices leads to an entry at depth `n`, under mappings only.
pub open spec fn entry_at(entries: Seq<(TreeView, TreeView)>, path: Seq<int>) -> Option<
    (TreeView, TreeView),
>
    decreases path.len(),
{
    if path.len() == 0 || !(0 <= path[0] < entries.len()) {
        None
    } else if path.len() == 1 {
        Some(entries[path[0]])
    } else {
        match entries[path[0]].1 {
            TreeView::Mapping(nested) => entry_at(nested, path.drop_first()),
            _ => None,
        }
    }
}

/// `path` leads to an entry whose key is the marked text `key` and whose value is the text
/// `value`.
pub open spec fn marked_at(
    entries: Seq<(TreeView, TreeView)>,
    path: Seq<int>,
    key: Seq<char>,
    value: Seq<char>,
) -> bool {
    is_marked(key) && entry_at(entries, path) == Some(
        (TreeView::String(key), TreeView::String(value)),
    )
}

/// What one of the parts holds, the parts hold together.
proof fn lemma_flatten_has<A>(parts: Seq<Seq<A>>, i: int, x: A)
    requires
        0 <= i < parts.len(),
        parts[i].contains(x),
    ensures
        parts.flatten().contains(x),
    decreases parts.len(),
{
    let rest = parts.drop_first();
    if i == 0 {
        let j = choose|j: int| 0 <= j < parts[0].len() && parts[0][j] == x;
        assert(parts.flatten()[j] == x);
    } else {
        assert(rest[i - 1] == parts[i]);
        lemma_flatten_has(rest, i - 1, x);
        let j = choose|j: int| 0 <= j < rest.flatten().len() && rest.flatten()[j] == x;
        assert(parts.flatten()[parts[0].len() + j] == x);
    }
}

/// What the parts hold together, one of them holds.
proof fn lemma_flatten_source<A>(parts: Seq<Seq<A>>, x: A) -> (i: int)
    requires
        parts.flatten().contains(x),
    ensures
        0 <= i < parts.len(),
        parts[i].contains(x),
    decreases parts.len(),
{
    let j = choose|j: int| 0 <= j < parts.flatten().len() && parts.flatten()[j] == x;
    if parts.len() == 0 {
        0
    } else if j < parts[0].len() {
        assert(parts[0][j] == x);
        0
    } else {
        let rest = parts.drop_first();
        assert(rest.flatten()[j - parts[0].len()] == x);
        let i = lemma_flatten_source(rest, x);
        assert(rest[i] == parts[i + 1]);
        i + 1
    }
}

/// A marked key that a path leads to is among the marked pairs of the mapping.
proof fn lemma_path_gives_pair(
    entries: Seq<(TreeView, TreeView)>,
    path: Seq<int>,
    key: Seq<char>,
    value: Seq<char>,
)
    requires
        marked_at(entries, path, key, value),
    ensures
        marked_pairs(entries).contains((key, value)),
    decreases path.len(),
{
    let i = path[0];
    let part = entry_pairs(entries)[i];
    let own = own_pair(entries[i]);
    if path.len() == 1 {
        assert(own[0] == (key, value));
        assert(part[0] == (key, value));
    } else {
        let nested = entries[i].1->Mapping_0;
        lemma_path_gives_pair(nested, path.drop_first(), key, value);
        let j = choose|j: int|
            0 <= j < marked_pairs(nested).len() && marked_pairs(nested)[j] == (key, value);
        assert(part[own.len() + j] == (key, value));
    }
    lemma_flatten_has(entry_pairs(entries), i, (key, value));
}

/// To each of the marked pairs of a mapping a path leads.
proof fn lemma_pair_has_path(
    entries: Seq<(TreeView, TreeView)>,
    pair: (Seq<char>, Seq<char>),
) -> (path: Seq<int>)
    requires
        marked_pairs(entries).contains(pair),
    ensures
        marked_at(entries, path, pair.0, pair.1),
    decreases entries,
{
    let i = lemma_flatten_source(entry_pairs(entries), pair);
    let own = own_pair(entries[i]);
    let below = nested_pairs(entries[i].1);
    let part = entry_pairs(entries)[i];
    assert(part == own + below);
    let j = choose|j: int| 0 <= j < part.len() && part[j] == pair;
    if j < own.len() {
        assert(own[j] == pair);
        seq![i]
    } else {
        assert(below[j - own.len()] == pair);
        let nested = entries[i].1->Mapping_0;
        let rest = lemma_pair_has_path(nested, pair);
        let path = seq![i] + rest;
        assert(path.drop_first() =~= rest);
        path
    }
}

/// A marked key whose value is a text is in the expand-key list of the mapping, at whatever
/// depth it lies under mappings.
pub proof fn lemma_scan_finds_marked_key(
    entries: Seq<(TreeView, TreeView)>,
    path: Seq<int>,
    key: Seq<char>,
    value: Seq<char>,
)
    requires
        marked_at(entries, path, key, value),
    ensures
        has_key(scanned(entries), key),
{
    lemma_path_gives_pair(entries, path, key, value);
    let pairs = marked_pairs(entries);
    let j = choose|j: int| 0 <= j < pairs.len() && pairs[j] == (key, value);
    assert(pairs[j].0 == key);
    lemma_updated_all_keys(Seq::empty(), pairs, key);
}

/// Every key of the expand-key list is a marked key of the mapping whose value is a text, and
/// the list holds under it the text of one entry with that key: a path leads to such an
/// entry.
pub proof fn lemma_scan_key_has_source(
    entries: Seq<(TreeView, TreeView)>,
    key: Seq<char>,
) -> (path: Seq<int>)
    requires
        has_key(scanned(entries), key),
    ensures
        value_of(scanned(entries), key) is Some,
        marked_at(entries, path, key, value_of(scanned(entries), key)->0),
{
    let pairs = marked_pairs(entries);
    lemma_updated_all_keys(Seq::empty(), pairs, key);
    assert(!has_key(Seq::<(Seq<char>, Seq<char>)>::empty(), key));
    let at = lemma_has_key_last(pairs, key);
    lemma_updated_all_last_wins(Seq::empty(), pairs, key, at);
    assert(pairs.contains(pairs[at]));
    lemma_pair_has_path(entries, pairs[at])
}

/// A key that no entry of the mapping has as a marked key with a text for its value is not in
/// the expand-key list: a marked key whose value is no text is left out.
pub proof fn lemma_scan_omits(entries: Seq<(TreeView, TreeView)>, key: Seq<char>)
    requires
        forall|path: Seq<int>, value: Seq<char>| !marked_at(entries, path, key, value),
    ensures
        !has_key(scanned(entries), key),
{
    if has_key(scanned(entries), key) {
        let path = lemma_scan_key_has_source(entries, key);
        assert(marked_at(entries, path, key, value_of(scanned(entries), key)->0));
    }
}

/// Where every entry with the marked key `key` holds the same text `value`, the expand-key
/// list holds `value` under `key`.
pub proof fn lemma_scan_returns_value(
    entries: Seq<(TreeView, TreeView)>,
    path: Seq<int>,
    key: Seq<char>,
    value: Seq<char>,
)
    requires
        marked_at(entries, path, key, value),
        forall|other: Seq<int>, text: Seq<char>|
            marked_at(entries, other, key, text) ==> text == value,
    ensures
        value_of(scanned(entries), key) == Some(value),
{
    lemma_scan_finds_marked_key(entries, path, key, value);
    let source = lemma_scan_key_has_source(entries, key);
    assert(marked_at(entries, source, key, value_of(scanned(entries), key)->0));
}

/// Under a marked key the expand-key list holds the text that the walk of the mapping meets
/// last under that key.
pub proof fn lemma_scan_last_wins(entries: Seq<(TreeView, TreeView)>, key: Seq<char>, at: int)
    requires
        is_last_index(marked_pairs(entries), key, at),
    ensures
        value_of(scanned(entries), key) == Some(marked_pairs(entries)[at].1),
{
    lemma_updated_all_last_wins(Seq::empty(), marked_pairs(entries), key, at);
}

/// No key stands twice in an expand-key list.
pub proof fn lemma_scanned_distinct(entries: Seq<(TreeView, TreeView)>)
    ensures
        distinct_keys(scanned(entries)),
{
    lemma_updated_all_distinct(Seq::empty(), marked_pairs(entries));
}

} // verus!
