use yaml_expand::load::load_documents;
use yaml_expand::scan::{extract_expand_keys, extract_expand_keys_recursive, ExpandKeys};
use yaml_expand::tree::{Mapping, Tree};

fn text(s: &str) -> Tree {
    Tree::String(s.to_string())
}

fn pair(key: &str, value: &str) -> (String, String) {
    (key.to_string(), value.to_string())
}

fn mapping_of(source: &str) -> Mapping {
    match load_documents(source).unwrap().remove(0) {
        Tree::Mapping(m) => m,
        other => panic!("not a mapping: {:?}", other),
    }
}

#[test]
fn scan_of_an_unmarked_mapping_is_empty() {
    let keys = extract_expand_keys(&mapping_of("a: x\nb:\n  c: y\n"));
    assert!(keys.is_empty());
    assert_eq!(keys.pairs(), &Vec::<(String, String)>::new());
}

#[test]
fn scan_of_an_empty_mapping_is_empty() {
    assert!(extract_expand_keys(&Mapping::new()).is_empty());
}

#[test]
fn scan_collects_marked_keys_with_their_texts() {
    let keys = extract_expand_keys(&mapping_of(
        "key1: value1\nkey2|expand: \"test%placeholder%\"\nkey3:\n  subkey1|expand: \"%placeholder%\"\n  subkey2: subvalue2\nkey4|expand:\n  - item1\n",
    ));
    assert_eq!(
        keys.pairs(),
        &vec![
            pair("key2|expand", "test%placeholder%"),
            pair("subkey1|expand", "%placeholder%"),
        ]
    );
}

#[test]
fn scan_keeps_the_marker_in_the_key() {
    let keys = extract_expand_keys(&mapping_of("a|expand: x\n"));
    assert_eq!(keys.get("a|expand"), Some(&"x".to_string()));
    assert_eq!(keys.get("a"), None);
}

#[test]
fn scan_finds_a_marked_key_at_any_depth() {
    let keys = extract_expand_keys(&mapping_of(
        "l1:\n  l2:\n    l3:\n      l4:\n        deep|expand: found\n",
    ));
    assert_eq!(keys.pairs(), &vec![pair("deep|expand", "found")]);
}

#[test]
fn scan_takes_the_marker_anywhere_in_the_key() {
    let keys = extract_expand_keys(&mapping_of("\"|expandfront\": x\n\"mid|expanddle\": y\n"));
    assert_eq!(
        keys.pairs(),
        &vec![pair("|expandfront", "x"), pair("mid|expanddle", "y")]
    );
}

#[test]
fn scan_omits_a_marked_key_whose_value_is_no_text() {
    let keys = extract_expand_keys(&mapping_of(
        "a|expand: 5\nb|expand: true\nc|expand: ~\nd|expand: 1.5\ne|expand: [x]\nf|expand: text\n",
    ));
    assert_eq!(keys.pairs(), &vec![pair("f|expand", "text")]);
}

#[test]
fn scan_descends_into_a_mapping_under_a_marked_key() {
    let keys = extract_expand_keys(&mapping_of("outer|expand:\n  inner|expand: x\n"));
    assert_eq!(keys.pairs(), &vec![pair("inner|expand", "x")]);
}

#[test]
fn scan_does_not_descend_into_sequences() {
    let keys = extract_expand_keys(&mapping_of("list:\n  - a|expand: x\n  - b|expand: y\n"));
    assert!(keys.is_empty());
}

#[test]
fn scan_descends_into_a_mapping_under_a_key_that_is_no_text() {
    let keys = extract_expand_keys(&mapping_of("1:\n  a|expand: x\n"));
    assert_eq!(keys.pairs(), &vec![pair("a|expand", "x")]);
}

#[test]
fn scan_ignores_a_key_that_is_no_text() {
    let mut inner = Mapping::new();
    inner.insert(text("k|expand"), text("v"));
    let mut m = Mapping::new();
    m.insert(Tree::Mapping(inner), text("x"));
    m.insert(Tree::Integer(3), text("|expand"));
    assert!(extract_expand_keys(&m).is_empty());
}

#[test]
fn scan_lets_the_text_met_last_win() {
    let keys = extract_expand_keys(&mapping_of(
        "a|expand: first\nb|expand: other\nn:\n  a|expand: second\nm:\n  a|expand: third\n",
    ));
    assert_eq!(
        keys.pairs(),
        &vec![pair("a|expand", "third"), pair("b|expand", "other")]
    );
    assert_eq!(keys.len(), 2);
}

#[test]
fn scan_walks_an_entry_before_what_lies_in_it() {
    let keys = extract_expand_keys(&mapping_of(
        "n:\n  a|expand: nested\na|expand: top\n",
    ));
    assert_eq!(keys.get("a|expand"), Some(&"top".to_string()));
}

#[test]
fn extract_expand_keys_recursive_adds_to_what_is_there() {
    let mut keys = ExpandKeys::new();
    keys.insert("old".to_string(), "kept".to_string());
    keys.insert("a|expand".to_string(), "overwritten".to_string());
    extract_expand_keys_recursive(&mapping_of("a|expand: new\nb|expand: more\n"), &mut keys);
    assert_eq!(
        keys.pairs(),
        &vec![pair("old", "kept"), pair("a|expand", "new"), pair("b|expand", "more")]
    );
}

#[test]
fn expand_keys_insert_keeps_the_position_of_a_key() {
    let mut keys = ExpandKeys::new();
    assert!(keys.is_empty());
    keys.insert("a".to_string(), "1".to_string());
    keys.insert("b".to_string(), "2".to_string());
    keys.insert("a".to_string(), "3".to_string());
    assert_eq!(keys.len(), 2);
    assert!(!keys.is_empty());
    assert_eq!(keys.pairs(), &vec![pair("a", "3"), pair("b", "2")]);
    assert_eq!(keys.get("a"), Some(&"3".to_string()));
    assert_eq!(keys.get("b"), Some(&"2".to_string()));
    assert_eq!(keys.get("c"), None);
}
