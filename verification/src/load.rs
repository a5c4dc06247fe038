//! Reading documents from YAML text, and finding in a document the mapping that is scanned.

use crate::assoc::value_of;
use crate::scan::{extract_expand_keys, scanned, ExpandKeys};
use crate::tree::{well_formed, Mapping, Tree, TreeView};
use vstd::prelude::*;
use yaml_rust2::{Yaml, YamlLoader};

verus! {

/// `yaml_rust2::Yaml`, a YAML node as the loader gives it. Nothing is known of what a value of
/// it holds; it is only turned into a [`Tree`].
#[verifier::external_type_specification]
#[verifier::external_body]
pub struct ExYaml(Yaml);

/// The documents that `YamlLoader::load_from_str` reads from a text, each as the model of its
/// tree, or `None` where the loader reports an error.
pub uninterp spec fn yaml_documents(source: Seq<char>) -> Option<Seq<TreeView>>;

/// The models of the trees in `docs`.
pub open spec fn document_views(docs: Seq<Tree>) -> Seq<TreeView> {
    docs.map_values(|doc: Tree| doc@)
}

/// The tree that holds what a `Yaml` value holds, variant by variant: each variant of `Yaml`
/// goes to the variant of [`Tree`] that stands for it, the entries of a hash in their order.
/// Nothing is claimed of the result.
#[verifier::external_body]
fn tree_from_yaml(yaml: Yaml) -> Tree {
    match yaml {
        Yaml::Real(text) => Tree::Float(text),
        Yaml::Integer(i) => Tree::Integer(i),
        Yaml::String(text) => Tree::String(text),
        Yaml::Boolean(b) => Tree::Boolean(b),
        Yaml::Array(items) => Tree::Sequence(items.into_iter().map(tree_from_yaml).collect()),
        Yaml::Hash(hash) => {
            let pairs = hash.into_iter().map(|(k, v)| (tree_from_yaml(k), tree_from_yaml(v)));
            Tree::Mapping(Mapping { entries: pairs.collect() })
        },
        Yaml::Alias(id) => Tree::Alias(id),
        Yaml::Null => Tree::Null,
        Yaml::BadValue => Tree::BadValue,
    }
}

/// `YamlLoader::load_from_str`: the documents of a YAML text as trees, or `None` where the
/// loader reports an error. The contract only gives what the loader returns its name,
/// [`yaml_documents`]: the same text is read to the same documents.
#[verifier::external_body]
fn load_from_str(source: &str) -> (out: Option<Vec<Tree>>)
    ensures
        match out {
            Some(docs) => yaml_documents(source@) == Some(document_views(docs@)),
            None => yaml_documents(source@) is None,
        },
{
    match YamlLoader::load_from_str(source) {
        Ok(docs) => Some(docs.into_iter().map(tree_from_yaml).collect()),
        Err(_) => None,
    }
}

/// The key under which a document holds the mapping that is scanned: `detection`.
pub open spec fn detection_key() -> Seq<char> {
    seq!['d', 'e', 't', 'e', 'c', 't', 'i', 'o', 'n']
}

/// The entries of the mapping that a document holds under the key `detection`.
pub open spec fn detection(doc: TreeView) -> Option<Seq<(TreeView, TreeView)>> {
    match doc {
        TreeView::Mapping(entries) => match value_of(
            entries,
            TreeView::String(detection_key()),
        ) {
            Some(TreeView::Mapping(found)) => Some(found),
            _ => None,
        },
        _ => None,
    }
}

/// What the scan of a list of documents gives: the expand-key list of the `detection` mapping
/// of the first document, where there is a first document and it holds such a mapping.
pub open spec fn documents_scanned(docs: Seq<TreeView>) -> Option<Seq<(Seq<char>, Seq<char>)>> {
    if docs.len() == 0 {
        None
    } else {
        match detection(docs[0]) {
            Some(entries) => Some(scanned(entries)),
            None => None,
        }
    }
}

/// The view of an optional expand-key list.
pub open spec fn keys_view(keys: Option<ExpandKeys>) -> Option<Seq<(Seq<char>, Seq<char>)>> {
    match keys {
        Some(found) => Some(found@),
        None => None,
    }
}

/// The documents of a YAML text, or `None` where the text is not well-formed YAML. Every
/// document is a well-formed tree.
pub fn load_documents(source: &str) -> (out: Option<Vec<Tree>>)
    ensures
        match out {
            Some(docs) => {
                &&& yaml_documents(source@) == Some(document_views(docs@))
                &&& forall|i: int| 0 <= i < docs.len() ==> well_formed(#[trigger] docs[i]@)
            },
            None => yaml_documents(source@) is None,
        },
{
    match load_from_str(source) {
        Some(docs) => {
            let mut i: usize = 0;
            while i < docs.len()
                invariant
                    i <= docs.len(),
                    forall|j: int| 0 <= j < i ==> well_formed(#[trigger] docs[j]@),
                decreases docs.len() - i,
            {
                docs[i].confirm_well_formed();
                i += 1;
            }
            Some(docs)
        },
        None => None,
    }
}

/// The mapping that `doc` holds under the key `detection`.
pub fn detection_of(doc: &Tree) -> (out: Option<&Mapping>)
    ensures
        match out {
            Some(found) => detection(doc@) == Some(found@),
            None => detection(doc@) is None,
        },
{
    match doc {
        Tree::Mapping(top) => {
            let name = "detection";
            proof {
                reveal_strlit("detection");
                assert(name@ =~= detection_key());
            }
            let key = Tree::String(name.to_owned());
            match top.get(&key) {
                Some(Tree::Mapping(found)) => Some(found),
                _ => None,
            }
        },
        _ => None,
    }
}

/// The expand-key list of the first of `docs`.
pub fn document_expand_keys(docs: &Vec<Tree>) -> (out: Option<ExpandKeys>)
    ensures
        keys_view(out) == documents_scanned(document_views(docs@)),
{
    if docs.len() == 0 {
        return None;
    }
    match detection_of(&docs[0]) {
        Some(found) => Some(extract_expand_keys(found)),
        None => None,
    }
}

/// The expand-key list of the first document of a YAML text. `None` where the text is not
/// well-formed YAML, holds no document, or its first document holds no `detection` mapping.
pub fn source_expand_keys(source: &str) -> (out: Option<ExpandKeys>)
    ensures
        keys_view(out) == match yaml_documents(source@) {
            Some(docs) => documents_scanned(docs),
            None => None,
        },
{
    match load_documents(source) {
        Some(docs) => document_expand_keys(&docs),
        None => None,
    }
}

} // verus!
