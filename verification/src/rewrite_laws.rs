//! What holds of rewriting: which trees and texts it leaves alone, what it makes of a text
//! with one placeholder, and that it keeps trees well-formed.

use crate::assoc::{
    collected, lemma_collected_distinct, lemma_collected_members, lemma_collected_of_distinct,
};
use crate::marker::{marker, stripped};
use crate::rewrite::{
    entry_expansions, entry_from, expanded, expansions, matches_none, rewritten,
    rewritten_entries, rewritten_items, substituted, unmarked, unmarked_entry, unmatched,
};
use crate::text::{lemma_replaced_absent, occurs, replaced};
use crate::tree::{well_formed, TreeView};
use vstd::prelude::*;

verus! {

/// A text in which no placeholder of the table occurs has no expansions.
pub proof fn lemma_no_match_no_expansions(
    value: Seq<char>,
    table: Seq<(Seq<char>, Seq<Seq<char>>)>,
)
    requires
        matches_none(value, table),
    ensures
        expansions(value, table) == Seq::<Seq<char>>::empty(),
    decreases table.len(),
{
    if table.len() > 0 {
        let front = table.drop_last();
        assert forall|i: int| 0 <= i < front.len() implies !occurs(
            value,
            (#[trigger] front[i]).0,
        ) by {
            assert(front[i] == table[i]);
        }
        lemma_no_match_no_expansions(value, front);
        assert(!occurs(value, table[table.len() - 1].0));
        assert(expansions(value, table) =~= Seq::<Seq<char>>::empty());
    }
}

/// A text in which no placeholder of the table occurs is substituted by itself: it is not
/// wrapped into a sequence.
pub proof fn lemma_no_match_passthrough(value: Seq<char>, table: Seq<(Seq<char>, Seq<Seq<char>>)>)
    requires
        matches_none(value, table),
    ensures
        substituted(TreeView::String(value), table) == TreeView::String(value),
{
    lemma_no_match_no_expansions(value, table);
}

/// Where the placeholder of the entry `at` is the only one of the table that occurs in
/// `value`, the expansions of `value` are those of that entry: one text for each member of its
/// list, in the order of the list, each with the placeholder replaced by that member.
pub proof fn lemma_single_match_expansions(
    value: Seq<char>,
    table: Seq<(Seq<char>, Seq<Seq<char>>)>,
    at: int,
)
    requires
        0 <= at < table.len(),
        occurs(value, table[at].0),
        forall|i: int| 0 <= i < table.len() && i != at ==> !occurs(value, (#[trigger] table[i]).0),
    ensures
        expansions(value, table) == table[at].1.map_values(
            |with: Seq<char>| replaced(value, table[at].0, with),
        ),
        expansions(value, table).len() == table[at].1.len(),
    decreases table.len(),
{
    let front = table.drop_last();
    if at == table.len() - 1 {
        assert forall|i: int| 0 <= i < front.len() implies !occurs(
            value,
            (#[trigger] front[i]).0,
        ) by {
            assert(front[i] == table[i]);
        }
        lemma_no_match_no_expansions(value, front);
        assert(expansions(value, table) =~= entry_expansions(value, table[at].0, table[at].1));
    } else {
        assert(front[at] == table[at]);
        assert forall|i: int| 0 <= i < front.len() && i != at implies !occurs(
            value,
            (#[trigger] front[i]).0,
        ) by {
            assert(front[i] == table[i]);
        }
        lemma_single_match_expansions(value, front, at);
        assert(!occurs(value, table[table.len() - 1].0));
        assert(expansions(value, table) =~= expansions(value, front));
    }
}

/// Where the placeholder of the entry `at` is the only one of the table that occurs in
/// `value`, and the list of that entry has `n` members, `n` not zero, `value` is substituted by
/// a sequence of exactly `n` texts: the text at index `i` is `value` with every occurrence of
/// the placeholder replaced by the member `i` of the list. With an empty list `value` is
/// substituted by itself.
pub proof fn lemma_single_match_substitute(
    value: Seq<char>,
    table: Seq<(Seq<char>, Seq<Seq<char>>)>,
    at: int,
)
    requires
        0 <= at < table.len(),
        occurs(value, table[at].0),
        forall|i: int| 0 <= i < table.len() && i != at ==> !occurs(value, (#[trigger] table[i]).0),
    ensures
        table[at].1.len() > 0 ==> substituted(TreeView::String(value), table)
            == TreeView::Sequence(
            Seq::new(
                table[at].1.len(),
                |i: int| TreeView::String(replaced(value, table[at].0, table[at].1[i])),
            ),
        ),
        table[at].1.len() == 0 ==> substituted(TreeView::String(value), table)
            == TreeView::String(value),
{
    lemma_single_match_expansions(value, table, at);
    if table[at].1.len() > 0 {
        assert(expansions(value, table).map_values(|text: Seq<char>| TreeView::String(text))
            =~= Seq::new(
            table[at].1.len(),
            |i: int| TreeView::String(replaced(value, table[at].0, table[at].1[i])),
        ));
    }
}

/// A tree without marked keys and without a text that holds a placeholder is rewritten to
/// itself, whatever the table: nothing is stripped and nothing is substituted.
pub proof fn lemma_plain_tree_unchanged(t: TreeView, table: Seq<(Seq<char>, Seq<Seq<char>>)>)
    requires
        well_formed(t),
        unmarked(t),
        unmatched(t, table),
    ensures
        rewritten(t, table) == t,
    decreases t,
{
    match t {
        TreeView::Mapping(entries) => {
            let pairs = rewritten_entries(entries, table);
            assert forall|i: int| 0 <= i < entries.len() implies pairs[i] == entries[i] by {
                let entry = entries[i];
                assert(well_formed(entry.1) && unmarked(entry.1) && unmatched(entry.1, table));
                assert(unmarked_entry(entry));
                lemma_plain_tree_unchanged(entry.1, table);
                match entry.0 {
                    TreeView::String(key) => {
                        lemma_replaced_absent(key, marker(), Seq::empty());
                        match entry.1 {
                            TreeView::String(value) => {
                                lemma_no_match_passthrough(value, table);
                            },
                            _ => {},
                        }
                    },
                    _ => {},
                }
            }
            assert(pairs =~= entries);
            lemma_collected_of_distinct(entries);
        },
        TreeView::Sequence(items) => {
            assert forall|i: int| 0 <= i < items.len() implies rewritten_items(items, table)[i]
                == items[i] by {
                lemma_plain_tree_unchanged(items[i], table);
            }
            assert(rewritten_items(items, table) =~= items);
        },
        _ => {},
    }
}

/// The tree that takes the place of a text is well-formed.
pub proof fn lemma_expanded_well_formed(value: Seq<char>, table: Seq<(Seq<char>, Seq<Seq<char>>)>)
    ensures
        well_formed(expanded(value, table)),
{
    let all = expansions(value, table).map_values(|text: Seq<char>| TreeView::String(text));
    assert forall|k: int| 0 <= k < all.len() implies well_formed(#[trigger] all[k]) by {}
}

/// Substituting keeps a tree well-formed.
pub proof fn lemma_substituted_well_formed(
    value: TreeView,
    table: Seq<(Seq<char>, Seq<Seq<char>>)>,
)
    requires
        well_formed(value),
    ensures
        well_formed(substituted(value, table)),
{
    match value {
        TreeView::String(text) => {
            lemma_expanded_well_formed(text, table);
        },
        _ => {
            lemma_rewritten_well_formed(value, table);
        },
    }
}

/// Rewriting keeps a tree well-formed: no mapping of the rewritten tree has a key twice.
pub proof fn lemma_rewritten_well_formed(t: TreeView, table: Seq<(Seq<char>, Seq<Seq<char>>)>)
    requires
        well_formed(t),
    ensures
        well_formed(rewritten(t, table)),
    decreases t,
{
    match t {
        TreeView::Mapping(entries) => {
            let pairs = rewritten_entries(entries, table);
            let after = collected(pairs);
            assert forall|i: int| 0 <= i < pairs.len() implies well_formed((#[trigger] pairs[i]).0)
                && well_formed(pairs[i].1) by {
                let entry = entries[i];
                assert(well_formed(entry.0) && well_formed(entry.1));
                lemma_rewritten_well_formed(entry.1, table);
                assert(pairs[i] == entry_from(entry, rewritten(entry.1, table), table));
                match entry.0 {
                    TreeView::String(key) => {
                        assert(well_formed(TreeView::String(stripped(key))));
                        match entry.1 {
                            TreeView::String(value) => {
                                lemma_expanded_well_formed(value, table);
                            },
                            _ => {},
                        }
                    },
                    _ => {},
                }
            }
            lemma_collected_distinct(pairs);
            lemma_collected_members(pairs);
            assert forall|i: int| 0 <= i < after.len() implies well_formed((#[trigger] after[i]).0)
                && well_formed(after[i].1) by {
                assert(pairs.contains(after[i]));
                let j = choose|j: int| 0 <= j < pairs.len() && pairs[j] == after[i];
                assert(well_formed(pairs[j].0));
            }
            assert(well_formed(TreeView::Mapping(after)));
        },
        TreeView::Sequence(items) => {
            assert forall|i: int| 0 <= i < items.len() implies well_formed(
                #[trigger] rewritten_items(items, table)[i],
            ) by {
                lemma_rewritten_well_formed(items[i], table);
            }
            assert(well_formed(TreeView::Sequence(rewritten_items(items, table))));
        },
        _ => {},
    }
}

/// With an empty table no text holds a placeholder.
pub proof fn lemma_empty_table_unmatched(t: TreeView)
    ensures
        unmatched(t, Seq::empty()),
    decreases t,
{
    match t {
        TreeView::Mapping(entries) => {
            assert forall|i: int| 0 <= i < entries.len() implies unmatched(
                (#[trigger] entries[i]).1,
                Seq::empty(),
            ) by {
                lemma_empty_table_unmatched(entries[i].1);
            }
        },
        TreeView::Sequence(items) => {
            assert forall|i: int| 0 <= i < items.len() implies unmatched(
                #[trigger] items[i],
                Seq::empty(),
            ) by {
                lemma_empty_table_unmatched(items[i]);
            }
        },
        _ => {},
    }
}

/// With an empty table a tree without marked keys is rewritten to itself.
pub proof fn lemma_unmarked_tree_unchanged(t: TreeView)
    requires
        well_formed(t),
        unmarked(t),
    ensures
        rewritten(t, Seq::empty()) == t,
{
    lemma_empty_table_unmatched(t);
    lemma_plain_tree_unchanged(t, Seq::empty());
}

} // verus!
