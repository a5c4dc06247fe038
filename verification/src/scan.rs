//! Marker discovery: collecting every marked key of a mapping with the text under it.

use crate::assoc::{
    distinct_keys, find, lemma_first_index, lemma_updated_all_add, lemma_updated_all_distinct,
    lemma_updated_distinct, put, updated, updated_all, value_of,
};
use crate::marker::{has_marker, is_marked};
use crate::scan_laws::lemma_scanned_distinct;
use crate::tree::{Mapping, Tree, TreeView};
use vstd::prelude::*;

verus! {

/// What an entry gives by itself: its key with its value, if the key is a marked text and the
/// value is a text.
pub open spec fn own_pair(entry: (TreeView, TreeView)) -> Seq<(Seq<char>, Seq<char>)> {
    match entry {
        (TreeView::String(key), TreeView::String(value)) => if is_marked(key) {
            seq![(key, value)]
        } else {
            Seq::empty()
        },
        _ => Seq::empty(),
    }
}

/// The marked keys of a mapping with their texts, in the order in which the mapping is walked:
/// for each entry first what the entry gives by itself, then what lies in its value.
pub open spec fn marked_pairs(entries: Seq<(TreeView, TreeView)>) -> Seq<(Seq<char>, Seq<char>)>
    decreases entries, 1nat,
{
    entry_pairs(entries).flatten()
}

/// For each entry of a mapping, the marked keys that it gives.
pub open spec fn entry_pairs(entries: Seq<(TreeView, TreeView)>) -> Seq<
    Seq<(Seq<char>, Seq<char>)>,
>
    decreases entries, 0nat,
{
    Seq::new(
        entries.len(),
        |i: int|
            if 0 <= i < entries.len() {
                own_pair(entries[i]) + nested_pairs(entries[i].1)
            } else {
                Seq::empty()
            },
    )
}

/// The marked keys that lie in the value of an entry: those of the value if it is a mapping,
/// whatever the key of the entry is. Nothing is looked for in a sequence.
pub open spec fn nested_pairs(value: TreeView) -> Seq<(Seq<char>, Seq<char>)>
    decreases value, 0nat,
{
    match value {
        TreeView::Mapping(entries) => marked_pairs(entries),
        _ => Seq::empty(),
    }
}

/// The expand-key list of a mapping: each marked key once, in the order in which the keys are
/// first met, with the text that was met last under it.
pub open spec fn scanned(entries: Seq<(TreeView, TreeView)>) -> Seq<(Seq<char>, Seq<char>)> {
    updated_all(Seq::empty(), marked_pairs(entries))
}

/// The marked keys of a document with the texts found under them.
///
/// The keys keep the order in which they were first put in.
pub struct ExpandKeys {
    entries: Vec<(String, String)>,
}

impl View for ExpandKeys {
    type V = Seq<(Seq<char>, Seq<char>)>;

    closed spec fn view(&self) -> Seq<(Seq<char>, Seq<char>)> {
        self.entries.deep_view()
    }
}

impl ExpandKeys {
    /// A list without keys.
    pub fn new() -> (keys: ExpandKeys)
        ensures
            keys@ == Seq::<(Seq<char>, Seq<char>)>::empty(),
            distinct_keys(keys@),
    {
        let keys = ExpandKeys { entries: Vec::new() };
        proof {
            assert(keys@ =~= Seq::empty());
        }
        keys
    }

    /// Gives `key` the text `value`. A key that the list has already keeps its position and
    /// loses its former text, so no key comes to stand twice.
    pub fn insert(&mut self, key: String, value: String)
        ensures
            final(self)@ == updated(old(self)@, key@, value@),
            distinct_keys(old(self)@) ==> distinct_keys(final(self)@),
    {
        proof {
            if distinct_keys(self@) {
                lemma_updated_distinct(self@, key@, value@);
            }
        }
        put(&mut self.entries, key, value);
    }

    /// The number of keys.
    pub fn len(&self) -> (n: usize)
        ensures
            n == self@.len(),
    {
        self.entries.len()
    }

    /// Whether the list has no key.
    pub fn is_empty(&self) -> (b: bool)
        ensures
            b == (self@.len() == 0),
    {
        self.entries.len() == 0
    }

    /// The text under `key`.
    pub fn get(&self, key: &str) -> (out: Option<&String>)
        ensures
            match out {
                Some(value) => value_of(self@, key@) == Some(value@),
                None => value_of(self@, key@) is None,
            },
    {
        let owned = key.to_owned();
        match find(&self.entries, &owned) {
            Some(at) => {
                proof {
                    lemma_first_index(self@, key@, at as int);
                }
                Some(&self.entries[at].1)
            },
            None => None,
        }
    }

    /// The keys with their texts, in order.
    pub fn pairs(&self) -> (out: &Vec<(String, String)>)
        ensures
            out.deep_view() == self@,
    {
        &self.entries
    }
}

/// Puts the marked keys of `hash` into `expand_keys`, those of the mappings nested in it
/// included.
///
/// A marked key is put in with the text under it; one whose value is no text is left out. A
/// key that was met before gets the text that is met later.
pub fn extract_expand_keys_recursive(hash: &Mapping, expand_keys: &mut ExpandKeys)
    ensures
        final(expand_keys)@ == updated_all(old(expand_keys)@, marked_pairs(hash@)),
        distinct_keys(old(expand_keys)@) ==> distinct_keys(final(expand_keys)@),
    decreases hash@,
{
    proof {
        if distinct_keys(expand_keys@) {
            lemma_updated_all_distinct(expand_keys@, marked_pairs(hash@));
        }
    }
    let entries = hash.entries();
    let ghost parts = entry_pairs(hash@);
    let mut i: usize = 0;
    proof {
        assert(parts.take(0) =~= Seq::empty());
    }
    while i < entries.len()
        invariant
            i <= entries.len(),
            entries.len() == hash@.len(),
            parts == entry_pairs(hash@),
            forall|k: int|
                0 <= k < entries.len() ==> (#[trigger] entries[k]).0@ == hash@[k].0
                    && entries[k].1@ == hash@[k].1,
            expand_keys@ == updated_all(old(expand_keys)@, parts.take(i as int).flatten()),
        decreases entries.len() - i,
    {
        let key = entries[i].0;
        let value = entries[i].1;
        let ghost before = expand_keys@;
        let ghost own = own_pair(hash@[i as int]);
        let ghost nested = nested_pairs(value@);
        if let Tree::String(key_str) = key {
            if has_marker(key_str.as_str()) {
                if let Tree::String(value_str) = value {
                    expand_keys.insert(key_str.clone(), value_str.clone());
                }
            }
        }
        proof {
            assert(key@ == hash@[i as int].0 && value@ == hash@[i as int].1);
            assert(updated_all(before, Seq::empty()) == before);
            if own.len() > 0 {
                assert(own.drop_last() =~= Seq::empty());
                assert(own.last() == own[0]);
            } else {
                assert(own =~= Seq::empty());
            }
            assert(expand_keys@ == updated_all(before, own));
        }
        if let Tree::Mapping(sub_hash) = value {
            extract_expand_keys_recursive(sub_hash, expand_keys);
        }
        proof {
            assert(expand_keys@ == updated_all(updated_all(before, own), nested));
            lemma_updated_all_add(before, own, nested);
            assert(parts[i as int] == own + nested);
            assert(parts.take(i + 1) =~= parts.take(i as int).push(parts[i as int]));
            parts.take(i as int).lemma_flatten_push(parts[i as int]);
            lemma_updated_all_add(
                old(expand_keys)@,
                parts.take(i as int).flatten(),
                parts[i as int],
            );
        }
        i += 1;
    }
    proof {
        assert(parts.take(i as int) =~= parts);
    }
}

/// The expand-key list of the mapping `detection`.
pub fn extract_expand_keys(detection: &Mapping) -> (out: ExpandKeys)
    ensures
        out@ == scanned(detection@),
        distinct_keys(out@),
{
    let mut expand_keys = ExpandKeys::new();
    extract_expand_keys_recursive(detection, &mut expand_keys);
    proof {
        lemma_scanned_distinct(detection@);
    }
    expand_keys
}

} // verus!
