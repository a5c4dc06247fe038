//! Marker application: stripping the marker from keys and expanding placeholders in values.

use crate::assoc::{collected, distinct_keys, lemma_updated_distinct, put, updated};
use crate::marker::{is_marked, strip_marker, stripped};
use crate::rewrite_laws::{
    lemma_no_match_passthrough, lemma_plain_tree_unchanged, lemma_rewritten_well_formed,
    lemma_substituted_well_formed,
};
use crate::text::{contains, occurs, replace, replaced};
use crate::tree::{well_formed, Mapping, Tree, TreeView};
use vstd::prelude::*;

verus! {

/// What one entry of a replacement table makes of `value`: one text for each member of
/// `list`, in the order of the list, if `placeholder` occurs in `value`, and nothing if not.
pub open spec fn entry_expansions(
    value: Seq<char>,
    placeholder: Seq<char>,
    list: Seq<Seq<char>>,
) -> Seq<Seq<char>> {
    if occurs(value, placeholder) {
        list.map_values(|with: Seq<char>| replaced(value, placeholder, with))
    } else {
        Seq::empty()
    }
}

/// What a replacement table makes of `value`: the expansions of its entries one after the
/// other, each made from `value` itself.
pub open spec fn expansions(value: Seq<char>, table: Seq<(Seq<char>, Seq<Seq<char>>)>) -> Seq<
    Seq<char>,
>
    decreases table.len(),
{
    if table.len() == 0 {
        Seq::empty()
    } else {
        expansions(value, table.drop_last()) + entry_expansions(
            value,
            table.last().0,
            table.last().1,
        )
    }
}

/// The tree that takes the place of the text `value`: the sequence of its expansions, or the
/// text itself where there are none.
pub open spec fn expanded(value: Seq<char>, table: Seq<(Seq<char>, Seq<Seq<char>>)>) -> TreeView {
    let all = expansions(value, table);
    if all.len() == 0 {
        TreeView::String(value)
    } else {
        TreeView::Sequence(all.map_values(|text: Seq<char>| TreeView::String(text)))
    }
}

/// The entry that takes the place of `entry`, given the rewritten form `inner` of its value.
///
/// Under a key that is a text the value is expanded if it is a text itself; under any other
/// key it is only rewritten, and the key stays as it is.
pub open spec fn entry_from(
    entry: (TreeView, TreeView),
    inner: TreeView,
    table: Seq<(Seq<char>, Seq<Seq<char>>)>,
) -> (TreeView, TreeView) {
    match entry.0 {
        TreeView::String(key) => (
            TreeView::String(stripped(key)),
            match entry.1 {
                TreeView::String(value) => expanded(value, table),
                _ => inner,
            },
        ),
        _ => (entry.0, inner),
    }
}

/// The rewritten form of a tree.
///
/// A mapping is collected anew from the entries that take the place of its own, and the
/// members of a sequence are rewritten. Any other tree stays as it is.
pub open spec fn rewritten(t: TreeView, table: Seq<(Seq<char>, Seq<Seq<char>>)>) -> TreeView
    decreases t,
{
    match t {
        TreeView::Mapping(entries) => TreeView::Mapping(
            collected(rewritten_entries(entries, table)),
        ),
        TreeView::Sequence(items) => TreeView::Sequence(rewritten_items(items, table)),
        _ => t,
    }
}

/// The entries that take the place of the entries of a mapping, before they are collected.
pub open spec fn rewritten_entries(
    entries: Seq<(TreeView, TreeView)>,
    table: Seq<(Seq<char>, Seq<Seq<char>>)>,
) -> Seq<(TreeView, TreeView)>
    decreases entries,
{
    Seq::new(
        entries.len(),
        |i: int|
            if 0 <= i < entries.len() {
                entry_from(entries[i], rewritten(entries[i].1, table), table)
            } else {
                (TreeView::Null, TreeView::Null)
            },
    )
}

/// The rewritten members of a sequence.
pub open spec fn rewritten_items(
    items: Seq<TreeView>,
    table: Seq<(Seq<char>, Seq<Seq<char>>)>,
) -> Seq<TreeView>
    decreases items,
{
    Seq::new(
        items.len(),
        |i: int|
            if 0 <= i < items.len() {
                rewritten(items[i], table)
            } else {
                TreeView::Null
            },
    )
}

/// The tree that takes the place of the value of an entry whose key is a text.
pub open spec fn substituted(value: TreeView, table: Seq<(Seq<char>, Seq<Seq<char>>)>) -> TreeView {
    match value {
        TreeView::String(text) => expanded(text, table),
        _ => rewritten(value, table),
    }
}

/// The replacement table: placeholders, each with the list of texts that take its place.
///
/// The entries keep the order in which their placeholders were first put in.
pub struct ReplacementTable {
    entries: Vec<(String, Vec<String>)>,
}

impl View for ReplacementTable {
    type V = Seq<(Seq<char>, Seq<Seq<char>>)>;

    closed spec fn view(&self) -> Seq<(Seq<char>, Seq<Seq<char>>)> {
        self.entries.deep_view()
    }
}

impl ReplacementTable {
    /// A table without entries.
    pub fn new() -> (table: ReplacementTable)
        ensures
            table@ == Seq::<(Seq<char>, Seq<Seq<char>>)>::empty(),
            distinct_keys(table@),
    {
        let table = ReplacementTable { entries: Vec::new() };
        proof {
            assert(table@ =~= Seq::empty());
        }
        table
    }

    /// Gives `placeholder` the list `list`. A placeholder that the table has already keeps its
    /// position and loses its former list, so no placeholder comes to stand twice.
    pub fn insert(&mut self, placeholder: String, list: Vec<String>)
        ensures
            final(self)@ == updated(old(self)@, placeholder@, list.deep_view()),
            distinct_keys(old(self)@) ==> distinct_keys(final(self)@),
    {
        proof {
            if distinct_keys(self@) {
                lemma_updated_distinct(self@, placeholder@, list.deep_view());
            }
        }
        put(&mut self.entries, placeholder, list);
    }

    /// The number of placeholders.
    pub fn len(&self) -> (n: usize)
        ensures
            n == self@.len(),
    {
        self.entries.len()
    }

    /// The placeholders with their lists, in order.
    pub fn pairs(&self) -> (out: &Vec<(String, Vec<String>)>)
        ensures
            out.deep_view() == self@,
    {
        &self.entries
    }
}

/// No placeholder of `table` occurs in `value`.
pub open spec fn matches_none(value: Seq<char>, table: Seq<(Seq<char>, Seq<Seq<char>>)>) -> bool {
    forall|i: int| 0 <= i < table.len() ==> !occurs(value, (#[trigger] table[i]).0)
}

/// No mapping that is reached through the values and members of `t` has a marked key.
pub open spec fn unmarked(t: TreeView) -> bool
    decreases t,
{
    match t {
        TreeView::Sequence(items) => forall|i: int|
            0 <= i < items.len() ==> unmarked(#[trigger] items[i]),
        TreeView::Mapping(entries) => forall|i: int|
            0 <= i < entries.len() ==> unmarked_entry(#[trigger] entries[i]) && unmarked(
                entries[i].1,
            ),
        _ => true,
    }
}

/// The key of `entry` is no marked text.
pub open spec fn unmarked_entry(entry: (TreeView, TreeView)) -> bool {
    match entry.0 {
        TreeView::String(key) => !is_marked(key),
        _ => true,
    }
}

/// No text among the values and members of `t` holds a placeholder of `table`.
pub open spec fn unmatched(t: TreeView, table: Seq<(Seq<char>, Seq<Seq<char>>)>) -> bool
    decreases t,
{
    match t {
        TreeView::String(text) => matches_none(text, table),
        TreeView::Sequence(items) => forall|i: int|
            0 <= i < items.len() ==> unmatched(#[trigger] items[i], table),
        TreeView::Mapping(entries) => forall|i: int|
            0 <= i < entries.len() ==> unmatched((#[trigger] entries[i]).1, table),
        _ => true,
    }
}

/// The expansions that the first `upto` entries of `table` make of `value`, as trees.
spec fn expansion_trees(
    value: Seq<char>,
    table: Seq<(Seq<char>, Seq<Seq<char>>)>,
    upto: int,
) -> Seq<TreeView> {
    expansions(value, table.take(upto)).map_values(|text: Seq<char>| TreeView::String(text))
}

/// The models of the trees in `items`.
spec fn views(items: Seq<Tree>) -> Seq<TreeView> {
    items.map_values(|item: Tree| item@)
}

/// Rewrites each member of a sequence.
fn process_items(items: &Vec<Tree>, replacements: &ReplacementTable) -> (out: Vec<Tree>)
    ensures
        out.len() == items.len(),
        forall|i: int| 0 <= i < items.len() ==> out[i]@ == rewritten(items[i]@, replacements@),
    decreases views(items@), 0nat,
{
    let mut out: Vec<Tree> = Vec::new();
    let mut i: usize = 0;
    while i < items.len()
        invariant
            i <= items.len(),
            out.len() == i,
            forall|j: int| 0 <= j < i ==> out[j]@ == rewritten(items[j]@, replacements@),
        decreases items.len() - i,
    {
        proof {
            assert(views(items@)[i as int] == items[i as int]@);
        }
        out.push(process_yaml(&items[i], replacements));
        i += 1;
    }
    out
}

/// The tree that takes the place of `value` as the value of an entry whose key is a text.
///
/// A text is replaced by the sequence of its expansions, if it has any. The members of a
/// sequence, and every other tree, are rewritten as [`process_yaml`] rewrites them.
pub fn process_value(value: &Tree, replacements: &ReplacementTable) -> (out: Tree)
    ensures
        out@ == substituted(value@, replacements@),
        well_formed(value@) ==> well_formed(out@),
        value@ matches TreeView::String(text) && matches_none(text, replacements@) ==> out@
            == value@,
    decreases value@, 1nat,
{
    proof {
        if well_formed(value@) {
            lemma_substituted_well_formed(value@, replacements@);
        }
        if let TreeView::String(text) = value@ {
            if matches_none(text, replacements@) {
                lemma_no_match_passthrough(text, replacements@);
            }
        }
    }
    match value {
        Tree::String(val_str) => {
            let table = &replacements.entries;
            let mut replaced_values: Vec<Tree> = Vec::new();
            let mut i: usize = 0;
            proof {
                assert(replacements@.take(0) =~= Seq::empty());
            }
            while i < table.len()
                invariant
                    i <= table.len(),
                    table.deep_view() == replacements@,
                    views(replaced_values@) == expansion_trees(val_str@, replacements@, i as int),
                decreases table.len() - i,
            {
                let placeholder = &table[i].0;
                let replace_list = &table[i].1;
                let ghost before = views(replaced_values@);
                let ghost entry = replacements@[i as int];
                proof {
                    assert(replacements@.take(i + 1).drop_last() =~= replacements@.take(i as int));
                    assert(entry.0 == placeholder@);
                    assert(entry.1 == replace_list.deep_view());
                }
                if contains(val_str.as_str(), placeholder.as_str()) {
                    let mut j: usize = 0;
                    while j < replace_list.len()
                        invariant
                            j <= replace_list.len(),
                            occurs(val_str@, placeholder@),
                            views(replaced_values@) == before + entry_expansions(
                                val_str@,
                                placeholder@,
                                replace_list.deep_view(),
                            ).take(j as int).map_values(|text: Seq<char>| TreeView::String(text)),
                        decreases replace_list.len() - j,
                    {
                        let text = replace(
                            val_str.as_str(),
                            placeholder.as_str(),
                            replace_list[j].as_str(),
                        );
                        let ghost earlier = views(replaced_values@);
                        replaced_values.push(Tree::String(text));
                        proof {
                            let made = entry_expansions(
                                val_str@,
                                placeholder@,
                                replace_list.deep_view(),
                            );
                            assert(made[j as int] == text@);
                            assert(views(replaced_values@) =~= earlier.push(
                                TreeView::String(text@),
                            ));
                            assert(views(replaced_values@) =~= before + made.take(j + 1).map_values(
                                |text: Seq<char>| TreeView::String(text),
                            ));
                        }
                        j += 1;
                    }
                    proof {
                        let made = entry_expansions(
                            val_str@,
                            placeholder@,
                            replace_list.deep_view(),
                        );
                        assert(made.take(j as int) =~= made);
                    }
                }
                proof {
                    assert(views(replaced_values@) =~= expansion_trees(
                        val_str@,
                        replacements@,
                        i + 1,
                    ));
                }
                i += 1;
            }
            proof {
                assert(replacements@.take(i as int) =~= replacements@);
            }
            if replaced_values.len() == 0 {
                Tree::String(val_str.clone())
            } else {
                let out = Tree::Sequence(replaced_values);
                proof {
                    assert(out@->Sequence_0 =~= views(replaced_values@));
                }
                out
            }
        },
        Tree::Sequence(array) => {
            proof {
                assert(value@->Sequence_0 =~= views(array@));
            }
            let new_array = process_items(array, replacements);
            let out = Tree::Sequence(new_array);
            proof {
                assert(out@->Sequence_0 =~= rewritten(value@, replacements@)->Sequence_0);
            }
            out
        },
        _ => process_yaml(value, replacements),
    }
}

/// The rewritten form of a tree.
///
/// A mapping is built anew: a key that is a text loses the marker wherever it occurs in it and
/// its value goes through [`process_value`]; under any other key the value is rewritten and the
/// key is kept. The members of a sequence are rewritten. Every other tree is copied.
pub fn process_yaml(yaml: &Tree, replacements: &ReplacementTable) -> (out: Tree)
    ensures
        out@ == rewritten(yaml@, replacements@),
        well_formed(yaml@) ==> well_formed(out@),
        well_formed(yaml@) && unmarked(yaml@) && unmatched(yaml@, replacements@) ==> out@
            == yaml@,
    decreases yaml@, 0nat,
{
    proof {
        if well_formed(yaml@) {
            lemma_rewritten_well_formed(yaml@, replacements@);
            if unmarked(yaml@) && unmatched(yaml@, replacements@) {
                lemma_plain_tree_unchanged(yaml@, replacements@);
            }
        }
    }
    match yaml {
        Tree::Mapping(hash) => {
            let entries = hash.entries();
            let ghost pairs = rewritten_entries(hash@, replacements@);
            let mut new_hash = Mapping::new();
            let mut i: usize = 0;
            proof {
                assert(pairs.take(0) =~= Seq::empty());
            }
            while i < entries.len()
                invariant
                    i <= entries.len(),
                    entries.len() == hash@.len(),
                    yaml@ == TreeView::Mapping(hash@),
                    forall|k: int|
                        0 <= k < entries.len() ==> (#[trigger] entries[k]).0@ == hash@[k].0
                            && entries[k].1@ == hash@[k].1,
                    pairs == rewritten_entries(hash@, replacements@),
                    new_hash@ == collected(pairs.take(i as int)),
                decreases entries.len() - i,
            {
                let key = entries[i].0;
                let value = entries[i].1;
                proof {
                    assert(pairs.take(i + 1).drop_last() =~= pairs.take(i as int));
                    assert(pairs.take(i + 1).last() == pairs[i as int]);
                    assert(value@ == yaml@->Mapping_0[i as int].1);
                }
                match key {
                    Tree::String(key_str) => {
                        let new_key = strip_marker(key_str.as_str());
                        let new_value = process_value(value, replacements);
                        new_hash.insert(Tree::String(new_key), new_value);
                    },
                    _ => {
                        let new_value = process_yaml(value, replacements);
                        new_hash.insert(key.clone(), new_value);
                    },
                }
                i += 1;
            }
            proof {
                assert(pairs.take(i as int) =~= pairs);
            }
            Tree::Mapping(new_hash)
        },
        Tree::Sequence(array) => {
            proof {
                assert(yaml@->Sequence_0 =~= views(array@));
            }
            let new_array = process_items(array, replacements);
            let out = Tree::Sequence(new_array);
            proof {
                assert(out@->Sequence_0 =~= rewritten(yaml@, replacements@)->Sequence_0);
            }
            out
        },
        _ => yaml.clone(),
    }
}

} // verus!
