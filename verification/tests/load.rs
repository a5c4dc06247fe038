use yaml_expand::load::{detection_of, document_expand_keys, load_documents, source_expand_keys};
use yaml_expand::tree::{Mapping, Tree};

fn text(s: &str) -> Tree {
    Tree::String(s.to_string())
}

#[test]
fn load_documents_reads_every_kind_of_node() {
    let docs = load_documents(
        "s: text\ni: 42\nf: 1.5\nb: true\nn: ~\nq: \"7\"\nl: [a, 2]\nm:\n  k: v\nbad: !!int x\n",
    )
    .unwrap();
    let mut inner = Mapping::new();
    inner.insert(text("k"), text("v"));
    let mut expected = Mapping::new();
    expected.insert(text("s"), text("text"));
    expected.insert(text("i"), Tree::Integer(42));
    expected.insert(text("f"), Tree::Float("1.5".to_string()));
    expected.insert(text("b"), Tree::Boolean(true));
    expected.insert(text("n"), Tree::Null);
    expected.insert(text("q"), text("7"));
    expected.insert(text("l"), Tree::Sequence(vec![text("a"), Tree::Integer(2)]));
    expected.insert(text("m"), Tree::Mapping(inner));
    expected.insert(text("bad"), Tree::BadValue);
    assert_eq!(docs, vec![Tree::Mapping(expected)]);
}

#[test]
fn load_documents_keeps_the_order_of_the_keys() {
    let docs = load_documents("z: 1\na: 2\nm: 3\n").unwrap();
    match &docs[0] {
        Tree::Mapping(m) => {
            let entries = m.entries();
            assert_eq!(entries.len(), 3);
            assert_eq!(entries[0], (&text("z"), &Tree::Integer(1)));
            assert_eq!(entries[1], (&text("a"), &Tree::Integer(2)));
            assert_eq!(entries[2], (&text("m"), &Tree::Integer(3)));
        }
        other => panic!("not a mapping: {:?}", other),
    }
}

#[test]
fn load_documents_reads_keys_that_are_no_texts() {
    let docs = load_documents("1: one\n[a, b]: pair\n").unwrap();
    let mut expected = Mapping::new();
    expected.insert(Tree::Integer(1), text("one"));
    expected.insert(Tree::Sequence(vec![text("a"), text("b")]), text("pair"));
    assert_eq!(docs[0], Tree::Mapping(expected));
}

#[test]
fn load_documents_reads_several_documents() {
    let docs = load_documents("a: 1\n---\n- x\n").unwrap();
    assert_eq!(docs.len(), 2);
    assert_eq!(docs[1], Tree::Sequence(vec![text("x")]));
}

#[test]
fn load_documents_gives_none_for_malformed_text() {
    assert!(load_documents("a: [1, 2").is_none());
    assert!(load_documents("a: b: c: d").is_none());
}

#[test]
fn load_documents_gives_no_document_for_an_empty_text() {
    assert_eq!(load_documents("").unwrap(), Vec::<Tree>::new());
}

#[test]
fn detection_of_finds_the_mapping_under_detection() {
    let docs = load_documents("title: t\ndetection:\n  a|expand: x\n").unwrap();
    let found = detection_of(&docs[0]).unwrap();
    let mut expected = Mapping::new();
    expected.insert(text("a|expand"), text("x"));
    assert_eq!(*found, expected);
}

#[test]
fn detection_of_gives_none_where_there_is_no_such_mapping() {
    let docs = load_documents("title: t\n---\ndetection: text\n---\n- detection\n").unwrap();
    assert!(detection_of(&docs[0]).is_none());
    assert!(detection_of(&docs[1]).is_none());
    assert!(detection_of(&docs[2]).is_none());
    assert!(detection_of(&Tree::BadValue).is_none());
}

#[test]
fn document_expand_keys_scans_the_first_document_only() {
    let docs = load_documents("detection:\n  a|expand: x\n---\ndetection:\n  b|expand: y\n").unwrap();
    let keys = document_expand_keys(&docs).unwrap();
    assert_eq!(keys.len(), 1);
    assert_eq!(keys.get("a|expand"), Some(&"x".to_string()));
    assert_eq!(keys.get("b|expand"), None);
    assert!(document_expand_keys(&Vec::new()).is_none());
}

#[test]
fn source_expand_keys_scans_the_detection_of_a_text() {
    let keys = source_expand_keys(
        "title: rule\ndetection:\n  selection:\n    User|expand: \"%admins%\"\n    Image: cmd.exe\n  condition: selection\n",
    )
    .unwrap();
    assert_eq!(
        keys.pairs(),
        &vec![("User|expand".to_string(), "%admins%".to_string())]
    );
}

#[test]
fn source_expand_keys_gives_an_empty_list_where_nothing_is_marked() {
    let keys = source_expand_keys("detection:\n  a: x\n").unwrap();
    assert!(keys.is_empty());
    assert_eq!(keys.len(), 0);
}

#[test]
fn source_expand_keys_gives_none_without_a_detection() {
    assert!(source_expand_keys("title: rule\n").is_none());
    assert!(source_expand_keys("a: [1, 2").is_none());
    assert!(source_expand_keys("").is_none());
    assert!(source_expand_keys("outer:\n  detection:\n    a|expand: x\n").is_none());
}
