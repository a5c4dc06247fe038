//! The document tree and its mathematical model.
//!
//! A [`Tree`] is one parsed document, or a part of one. Its mappings are insertion-ordered hash
//! maps of the `hashlink` crate. What such a map holds is known to the verifier only as the
//! sequence of its entries, [`mapping_entries`], and only through the few functions of this
//! module that call into the crate: their contracts are taken on trust.

use crate::assoc::{distinct_keys, lemma_moved_to_back_distinct, moved_to_back, value_of};
use hashlink::LinkedHashMap;
use vstd::prelude::*;
use vstd::std_specs::cmp::PartialEqSpecImpl;

verus! {

/// The mathematical model of a document tree.
pub enum TreeView {
    Null,
    Boolean(bool),
    Integer(int),
    /// A float, as the text it was written with.
    Float(Seq<char>),
    String(Seq<char>),
    Sequence(Seq<TreeView>),
    /// The entries of a mapping, in the order of their insertion.
    Mapping(Seq<(TreeView, TreeView)>),
    Alias(int),
    BadValue,
}

/// An insertion-ordered mapping from trees to trees: a `hashlink::LinkedHashMap`.
///
/// Keys are compared by the `==` of [`Tree`], which is equality of the models, and hashed by
/// the `Hash` that is derived for it.
#[verifier::external_body]
#[derive(Debug, Eq, Hash)]
pub struct Mapping {
    pub(crate) entries: LinkedHashMap<Tree, Tree>,
}

/// A document tree.
#[derive(Debug, Eq, Hash)]
pub enum Tree {
    Null,
    Boolean(bool),
    Integer(i64),
    /// A float, kept as the text it was written with.
    Float(String),
    String(String),
    Sequence(Vec<Tree>),
    Mapping(Mapping),
    /// A reference to an anchor that was not resolved.
    Alias(usize),
    /// What stands for a node that could not be read.
    BadValue,
}

/// The entries of a mapping in the order in which `LinkedHashMap::iter` walks them, each key
/// and value as its model.
pub uninterp spec fn mapping_entries(m: Mapping) -> Seq<(TreeView, TreeView)>;

/// `LinkedHashMap::new`: a mapping without entries.
#[verifier::external_body]
fn map_new() -> (m: Mapping)
    ensures
        mapping_entries(m) == Seq::<(TreeView, TreeView)>::empty(),
{
    Mapping { entries: LinkedHashMap::new() }
}

/// `LinkedHashMap::insert`: the pair goes to the back of the order. Where the mapping already
/// has an equal key, that entry leaves its place and takes the new value.
#[verifier::external_body]
fn map_insert(m: &mut Mapping, key: Tree, value: Tree)
    ensures
        mapping_entries(*final(m)) == moved_to_back(mapping_entries(*old(m)), key@, value@),
{
    m.entries.insert(key, value);
}

/// `LinkedHashMap::iter`, collected: the entries from front to back. No two of them have
/// equal keys.
#[verifier::external_body]
fn map_iter(m: &Mapping) -> (out: Vec<(&Tree, &Tree)>)
    ensures
        out.len() == mapping_entries(*m).len(),
        forall|i: int|
            0 <= i < out.len() ==> (#[trigger] out[i]).0@ == mapping_entries(*m)[i].0 && out[i].1@
                == mapping_entries(*m)[i].1,
        forall|i: int, j: int|
            0 <= i < j < out.len() ==> (#[trigger] out[i]).0@ != (#[trigger] out[j]).0@,
{
    m.entries.iter().collect()
}

/// `LinkedHashMap::get`: the value of the entry whose key equals `key`, if there is one.
#[verifier::external_body]
fn map_get<'a>(m: &'a Mapping, key: &Tree) -> (out: Option<&'a Tree>)
    ensures
        match out {
            Some(value) => value_of(mapping_entries(*m), key@) == Some(value@),
            None => value_of(mapping_entries(*m), key@) is None,
        },
{
    m.entries.get(key)
}

/// `LinkedHashMap::clone`: a mapping with copies of the same entries in the same order.
#[verifier::external_body]
fn map_clone(m: &Mapping) -> (out: Mapping)
    ensures
        mapping_entries(out) == mapping_entries(*m),
{
    Mapping { entries: m.entries.clone() }
}

impl View for Mapping {
    type V = Seq<(TreeView, TreeView)>;

    open spec fn view(&self) -> Seq<(TreeView, TreeView)> {
        mapping_entries(*self)
    }
}

impl View for Tree {
    type V = TreeView;

    open spec fn view(&self) -> TreeView
        decreases self,
    {
        match self {
            Tree::Null => TreeView::Null,
            Tree::Boolean(b) => TreeView::Boolean(*b),
            Tree::Integer(i) => TreeView::Integer(*i as int),
            Tree::Float(text) => TreeView::Float(text@),
            Tree::String(text) => TreeView::String(text@),
            Tree::Sequence(items) => TreeView::Sequence(
                Seq::new(
                    items.len() as nat,
                    |i: int|
                        if 0 <= i < items.len() {
                            items[i].view()
                        } else {
                            TreeView::Null
                        },
                ),
            ),
            Tree::Mapping(m) => TreeView::Mapping(mapping_entries(*m)),
            Tree::Alias(id) => TreeView::Alias(*id as int),
            Tree::BadValue => TreeView::BadValue,
        }
    }
}

/// No mapping in `t` has a key twice.
pub open spec fn well_formed(t: TreeView) -> bool
    decreases t,
{
    match t {
        TreeView::Sequence(items) => forall|i: int|
            0 <= i < items.len() ==> well_formed(#[trigger] items[i]),
        TreeView::Mapping(entries) => {
            &&& distinct_keys(entries)
            &&& forall|i: int|
                0 <= i < entries.len() ==> well_formed((#[trigger] entries[i]).0) && well_formed(
                    entries[i].1,
                )
        },
        _ => true,
    }
}

impl Mapping {
    /// A mapping without entries.
    pub fn new() -> (m: Mapping)
        ensures
            m@ == Seq::<(TreeView, TreeView)>::empty(),
            distinct_keys(m@),
    {
        map_new()
    }

    /// Puts `key` with `value` at the end of the mapping. An entry that had the key before
    /// leaves its place, so no key comes to stand twice.
    pub fn insert(&mut self, key: Tree, value: Tree)
        ensures
            final(self)@ == moved_to_back(old(self)@, key@, value@),
            distinct_keys(old(self)@) ==> distinct_keys(final(self)@),
    {
        proof {
            if distinct_keys(self@) {
                lemma_moved_to_back_distinct(self@, key@, value@);
            }
        }
        map_insert(self, key, value)
    }

    /// The value that the mapping holds for `key`.
    pub fn get(&self, key: &Tree) -> (out: Option<&Tree>)
        ensures
            match out {
                Some(value) => value_of(self@, key@) == Some(value@),
                None => value_of(self@, key@) is None,
            },
    {
        map_get(self, key)
    }

    /// The entries in the order of their insertion.
    pub fn entries(&self) -> (out: Vec<(&Tree, &Tree)>)
        ensures
            out.len() == self@.len(),
            forall|i: int|
                0 <= i < out.len() ==> (#[trigger] out[i]).0@ == self@[i].0 && out[i].1@
                    == self@[i].1,
            distinct_keys(self@),
    {
        let out = map_iter(self);
        proof {
            assert forall|i: int, j: int| 0 <= i < j < self@.len() implies (#[trigger] self@[i]).0
                != (#[trigger] self@[j]).0 by {
                assert(out[i].0@ != out[j].0@);
            }
        }
        out
    }
}

impl Tree {
    /// Walks the tree and finds it well-formed: its mappings are hash maps, in which no key
    /// stands twice.
    pub fn confirm_well_formed(&self)
        ensures
            well_formed(self@),
        decreases self@,
    {
        match self {
            Tree::Sequence(items) => {
                let ghost members = self@->Sequence_0;
                let mut i: usize = 0;
                while i < items.len()
                    invariant
                        i <= items.len(),
                        *self == Tree::Sequence(*items),
                        members == self@->Sequence_0,
                        forall|j: int| 0 <= j < i ==> well_formed(#[trigger] members[j]),
                    decreases items.len() - i,
                {
                    proof {
                        assert(members[i as int] == items[i as int]@);
                    }
                    items[i].confirm_well_formed();
                    i += 1;
                }
            },
            Tree::Mapping(m) => {
                let entries = m.entries();
                let mut i: usize = 0;
                while i < entries.len()
                    invariant
                        i <= entries.len(),
                        entries.len() == m@.len(),
                        self@ == TreeView::Mapping(m@),
                        forall|k: int|
                            0 <= k < entries.len() ==> (#[trigger] entries[k]).0@ == m@[k].0
                                && entries[k].1@ == m@[k].1,
                        forall|j: int|
                            0 <= j < i ==> well_formed((#[trigger] m@[j]).0) && well_formed(
                                m@[j].1,
                            ),
                    decreases entries.len() - i,
                {
                    proof {
                        assert(entries[i as int].0@ == self@->Mapping_0[i as int].0);
                        assert(entries[i as int].1@ == self@->Mapping_0[i as int].1);
                    }
                    entries[i].0.confirm_well_formed();
                    entries[i].1.confirm_well_formed();
                    i += 1;
                }
            },
            _ => {},
        }
    }
}

/// Whether two mappings hold equal entries in the same order.
fn same_mapping(a: &Mapping, b: &Mapping) -> (same: bool)
    ensures
        same == (a@ == b@),
    decreases TreeView::Mapping(a@), 0nat,
{
    let left = a.entries();
    let right = b.entries();
    if left.len() != right.len() {
        return false;
    }
    let mut i: usize = 0;
    while i < left.len()
        invariant
            i <= left.len(),
            left.len() == right.len(),
            left.len() == a@.len(),
            right.len() == b@.len(),
            forall|k: int|
                0 <= k < left.len() ==> (#[trigger] left[k]).0@ == a@[k].0 && left[k].1@ == a@[k].1,
            forall|k: int|
                0 <= k < right.len() ==> (#[trigger] right[k]).0@ == b@[k].0 && right[k].1@
                    == b@[k].1,
            forall|k: int| 0 <= k < i ==> a@[k] == b@[k],
        decreases left.len() - i,
    {
        proof {
            let whole = TreeView::Mapping(a@);
            assert(left[i as int].0@ == whole->Mapping_0[i as int].0);
            assert(left[i as int].1@ == whole->Mapping_0[i as int].1);
            assert(right[i as int].0@ == b@[i as int].0);
        }
        if !same_tree(left[i].0, right[i].0) || !same_tree(left[i].1, right[i].1) {
            return false;
        }
        i += 1;
    }
    proof {
        assert(a@ =~= b@);
    }
    true
}

/// Whether two sequences of trees hold equal members in the same order.
fn same_items(a: &Vec<Tree>, b: &Vec<Tree>) -> (same: bool)
    ensures
        same == (Tree::Sequence(*a)@ == Tree::Sequence(*b)@),
    decreases Tree::Sequence(*a)@, 0nat,
{
    let ghost left = Tree::Sequence(*a)@->Sequence_0;
    let ghost right = Tree::Sequence(*b)@->Sequence_0;
    proof {
        assert(left.len() == a.len() && right.len() == b.len());
    }
    if a.len() != b.len() {
        return false;
    }
    let mut i: usize = 0;
    while i < a.len()
        invariant
            i <= a.len(),
            a.len() == b.len(),
            left == Tree::Sequence(*a)@->Sequence_0,
            right == Tree::Sequence(*b)@->Sequence_0,
            forall|k: int| 0 <= k < i ==> left[k] == right[k],
        decreases a.len() - i,
    {
        proof {
            assert(left[i as int] == a[i as int]@);
            assert(right[i as int] == b[i as int]@);
        }
        if !same_tree(&a[i], &b[i]) {
            return false;
        }
        i += 1;
    }
    proof {
        assert(left =~= right);
    }
    true
}

/// Whether two trees are equal: of the same kind, and holding equal contents in the same
/// order.
fn same_tree(a: &Tree, b: &Tree) -> (same: bool)
    ensures
        same == (a@ == b@),
    decreases a@, 1nat,
{
    match a {
        Tree::Null => match b {
            Tree::Null => true,
            _ => false,
        },
        Tree::Boolean(x) => match b {
            Tree::Boolean(y) => *x == *y,
            _ => false,
        },
        Tree::Integer(x) => match b {
            Tree::Integer(y) => *x == *y,
            _ => false,
        },
        Tree::Float(x) => match b {
            Tree::Float(y) => *x == *y,
            _ => false,
        },
        Tree::String(x) => match b {
            Tree::String(y) => *x == *y,
            _ => false,
        },
        Tree::Sequence(x) => match b {
            Tree::Sequence(y) => same_items(x, y),
            _ => false,
        },
        Tree::Mapping(x) => match b {
            Tree::Mapping(y) => same_mapping(x, y),
            _ => false,
        },
        Tree::Alias(x) => match b {
            Tree::Alias(y) => *x == *y,
            _ => false,
        },
        Tree::BadValue => match b {
            Tree::BadValue => true,
            _ => false,
        },
    }
}

impl PartialEq for Mapping {
    fn eq(&self, other: &Mapping) -> (same: bool) {
        same_mapping(self, other)
    }
}

impl PartialEqSpecImpl for Mapping {
    open spec fn obeys_eq_spec() -> bool {
        true
    }

    open spec fn eq_spec(&self, other: &Mapping) -> bool {
        self@ == other@
    }
}

impl PartialEq for Tree {
    fn eq(&self, other: &Tree) -> (same: bool) {
        same_tree(self, other)
    }
}

impl PartialEqSpecImpl for Tree {
    open spec fn obeys_eq_spec() -> bool {
        true
    }

    open spec fn eq_spec(&self, other: &Tree) -> bool {
        self@ == other@
    }
}

impl Clone for Mapping {
    fn clone(&self) -> (out: Mapping)
        ensures
            out@ == self@,
    {
        map_clone(self)
    }
}

impl Clone for Tree {
    fn clone(&self) -> (out: Tree)
        ensures
            out@ == self@,
        decreases self@,
    {
        match self {
            Tree::Null => Tree::Null,
            Tree::Boolean(b) => Tree::Boolean(*b),
            Tree::Integer(i) => Tree::Integer(*i),
            Tree::Float(text) => Tree::Float(text.clone()),
            Tree::String(text) => Tree::String(text.clone()),
            Tree::Sequence(items) => {
                let mut copies: Vec<Tree> = Vec::new();
                let mut i: usize = 0;
                while i < items.len()
                    invariant
                        i <= items.len(),
                        copies.len() == i,
                        *self == Tree::Sequence(*items),
                        forall|j: int| 0 <= j < i ==> copies[j]@ == items[j]@,
                    decreases items.len() - i,
                {
                    proof {
                        assert(self@->Sequence_0[i as int] == items[i as int]@);
                    }
                    copies.push(items[i].clone());
                    i += 1;
                }
                let out = Tree::Sequence(copies);
                proof {
                    assert(out@->Sequence_0 =~= self@->Sequence_0);
                }
                out
            },
            Tree::Mapping(m) => Tree::Mapping(m.clone()),
            Tree::Alias(id) => Tree::Alias(*id),
            Tree::BadValue => Tree::BadValue,
        }
    }
}

} // verus!
