use yaml_expand::tree::{Mapping, Tree};

fn text(s: &str) -> Tree {
    Tree::String(s.to_string())
}

#[test]
fn a_new_mapping_has_no_entries() {
    let m = Mapping::new();
    assert!(m.entries().is_empty());
    assert!(m.get(&text("a")).is_none());
}

#[test]
fn insert_keeps_the_order_of_insertion() {
    let mut m = Mapping::new();
    m.insert(text("b"), Tree::Integer(1));
    m.insert(text("a"), Tree::Integer(2));
    m.insert(Tree::Integer(7), Tree::Null);
    let entries = m.entries();
    assert_eq!(entries.len(), 3);
    assert_eq!(entries[0], (&text("b"), &Tree::Integer(1)));
    assert_eq!(entries[1], (&text("a"), &Tree::Integer(2)));
    assert_eq!(entries[2], (&Tree::Integer(7), &Tree::Null));
}

#[test]
fn insert_moves_a_key_that_is_there_to_the_back() {
    let mut m = Mapping::new();
    m.insert(text("a"), Tree::Integer(1));
    m.insert(text("b"), Tree::Integer(2));
    m.insert(text("a"), Tree::Integer(3));
    let entries = m.entries();
    assert_eq!(entries.len(), 2);
    assert_eq!(entries[0], (&text("b"), &Tree::Integer(2)));
    assert_eq!(entries[1], (&text("a"), &Tree::Integer(3)));
}

#[test]
fn get_finds_a_key_by_value() {
    let mut m = Mapping::new();
    m.insert(text("a"), Tree::Integer(1));
    m.insert(Tree::Sequence(vec![text("x"), Tree::Null]), Tree::Boolean(true));
    assert_eq!(m.get(&text("a")), Some(&Tree::Integer(1)));
    assert_eq!(
        m.get(&Tree::Sequence(vec![text("x"), Tree::Null])),
        Some(&Tree::Boolean(true))
    );
    assert_eq!(m.get(&text("b")), None);
    assert_eq!(m.get(&Tree::Float("a".to_string())), None);
}

#[test]
fn mappings_are_equal_when_their_entries_are_equal_in_order() {
    let mut m1 = Mapping::new();
    m1.insert(text("a"), Tree::Integer(1));
    m1.insert(text("b"), Tree::Integer(2));
    let mut m2 = Mapping::new();
    m2.insert(text("b"), Tree::Integer(2));
    m2.insert(text("a"), Tree::Integer(1));
    let mut m3 = Mapping::new();
    m3.insert(text("a"), Tree::Integer(1));
    m3.insert(text("b"), Tree::Integer(2));
    assert_ne!(m1, m2);
    assert_eq!(m1, m3);
}

#[test]
fn clone_copies_a_tree_with_all_that_is_in_it() {
    let mut inner = Mapping::new();
    inner.insert(text("k"), Tree::Float("1.5".to_string()));
    inner.insert(Tree::Boolean(false), Tree::Alias(3));
    let mut outer = Mapping::new();
    outer.insert(text("m"), Tree::Mapping(inner));
    outer.insert(
        text("s"),
        Tree::Sequence(vec![Tree::Null, Tree::BadValue, Tree::Integer(-4)]),
    );
    let tree = Tree::Mapping(outer);
    let copy = tree.clone();
    assert_eq!(copy, tree);
    assert_ne!(copy, Tree::Null);
}

#[test]
fn a_float_is_not_a_text() {
    assert_ne!(Tree::Float("1.5".to_string()), text("1.5"));
}

#[test]
fn confirm_well_formed_walks_every_tree() {
    let mut inner = Mapping::new();
    inner.insert(text("k"), Tree::Sequence(vec![Tree::Null, text("x")]));
    let mut key = Mapping::new();
    key.insert(Tree::Integer(1), Tree::Null);
    let mut outer = Mapping::new();
    outer.insert(text("m"), Tree::Mapping(inner));
    outer.insert(Tree::Mapping(key), Tree::BadValue);
    Tree::Mapping(outer).confirm_well_formed();
    Tree::Sequence(Vec::new()).confirm_well_formed();
    Tree::Null.confirm_well_formed();
}

#[test]
fn trees_of_different_kinds_are_not_equal() {
    assert_ne!(Tree::Null, Tree::BadValue);
    assert_ne!(Tree::Integer(1), Tree::Alias(1));
    assert_ne!(Tree::Boolean(true), text("true"));
    assert_ne!(Tree::Sequence(Vec::new()), Tree::Mapping(Mapping::new()));
    assert_ne!(
        Tree::Sequence(vec![Tree::Null]),
        Tree::Sequence(vec![Tree::Null, Tree::Null])
    );
    assert_eq!(
        Tree::Sequence(vec![Tree::Integer(1), text("a")]),
        Tree::Sequence(vec![Tree::Integer(1), text("a")])
    );
}
