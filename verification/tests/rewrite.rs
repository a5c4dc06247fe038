use yaml_expand::load::load_documents;
use yaml_expand::rewrite::{process_value, process_yaml, ReplacementTable};
use yaml_expand::tree::{Mapping, Tree};

fn text(s: &str) -> Tree {
    Tree::String(s.to_string())
}

fn texts(items: &[&str]) -> Tree {
    Tree::Sequence(items.iter().map(|s| text(s)).collect())
}

fn list(items: &[&str]) -> Vec<String> {
    items.iter().map(|s| s.to_string()).collect()
}

fn table(entries: &[(&str, &[&str])]) -> ReplacementTable {
    let mut out = ReplacementTable::new();
    for (placeholder, members) in entries {
        out.insert(placeholder.to_string(), list(members));
    }
    out
}

fn document(source: &str) -> Tree {
    load_documents(source).unwrap().remove(0)
}

#[test]
fn test_process_yaml() {
    let yaml_str = r#"
        key1: value1
        key2|expand: "test%placeholder%"
        key3:
          subkey1|expand: "%placeholder%"
          subkey2: subvalue2
        key4|expand:
          - item1
        "#;

    let docs = load_documents(yaml_str).unwrap();
    let mut replacements = ReplacementTable::new();
    replacements.insert(
        "%placeholder%".to_string(),
        vec!["replace_value1".to_string(), "replace_value2".to_string()],
    );
    let processed_yaml = process_yaml(&docs[0], &replacements);

    let expected_yaml_str = r#"
        key1: value1
        key2: [testreplace_value1, testreplace_value2]
        key3:
          subkey1: [replace_value1, replace_value2]
          subkey2: subvalue2
        key4:
          - item1
        "#;

    let expected_docs = load_documents(expected_yaml_str).unwrap();
    assert_eq!(processed_yaml, expected_docs[0]);
}

#[test]
fn rewrite_gives_the_tree_written_out_by_hand() {
    let mut key3 = Mapping::new();
    key3.insert(text("subkey1|expand"), text("%placeholder%"));
    key3.insert(text("subkey2"), text("subvalue2"));
    let mut input = Mapping::new();
    input.insert(text("key1"), text("value1"));
    input.insert(text("key2|expand"), text("test%placeholder%"));
    input.insert(text("key3"), Tree::Mapping(key3));
    input.insert(text("key4|expand"), texts(&["item1"]));

    let replacements = table(&[("%placeholder%", &["replace_value1", "replace_value2"])]);
    let out = process_yaml(&Tree::Mapping(input), &replacements);

    let mut new_key3 = Mapping::new();
    new_key3.insert(text("subkey1"), texts(&["replace_value1", "replace_value2"]));
    new_key3.insert(text("subkey2"), text("subvalue2"));
    let mut expected = Mapping::new();
    expected.insert(text("key1"), text("value1"));
    expected.insert(text("key2"), texts(&["testreplace_value1", "testreplace_value2"]));
    expected.insert(text("key3"), Tree::Mapping(new_key3));
    expected.insert(text("key4"), texts(&["item1"]));
    assert_eq!(out, Tree::Mapping(expected));
}

#[test]
fn rewrite_leaves_an_unmarked_tree_as_it_is() {
    let tree = document("a: x\nb:\n  c: [1, two, 3.5, ~]\n  d: true\n7: seven\n");
    assert_eq!(process_yaml(&tree, &ReplacementTable::new()), tree);
    assert_eq!(process_yaml(&tree, &table(&[("%p%", &["v"])])), tree);
}

#[test]
fn rewrite_with_an_empty_table_only_strips_the_markers() {
    let tree = document("a|expand: \"%p%\"\nb:\n  c|expand: x\nl:\n  - d|expand: y\n");
    let expected = document("a: \"%p%\"\nb:\n  c: x\nl:\n  - d: y\n");
    assert_eq!(process_yaml(&tree, &ReplacementTable::new()), expected);
}

#[test]
fn rewrite_returns_scalars_unchanged() {
    let replacements = table(&[("a", &["b"])]);
    assert_eq!(process_yaml(&Tree::Null, &replacements), Tree::Null);
    assert_eq!(process_yaml(&Tree::Boolean(true), &replacements), Tree::Boolean(true));
    assert_eq!(process_yaml(&Tree::Integer(-3), &replacements), Tree::Integer(-3));
    assert_eq!(
        process_yaml(&Tree::Float("1.a".to_string()), &replacements),
        Tree::Float("1.a".to_string())
    );
    assert_eq!(process_yaml(&Tree::Alias(2), &replacements), Tree::Alias(2));
    assert_eq!(process_yaml(&Tree::BadValue, &replacements), Tree::BadValue);
}

#[test]
fn rewrite_does_not_expand_a_text_that_is_no_value_of_an_entry() {
    let replacements = table(&[("a", &["b", "c"])]);
    assert_eq!(process_yaml(&text("a"), &replacements), text("a"));
    assert_eq!(
        process_yaml(&texts(&["a", "xa"]), &replacements),
        texts(&["a", "xa"])
    );
}

#[test]
fn rewrite_strips_the_marker_from_every_level() {
    let tree = document("a|expand:\n  b|expand:\n    - c|expand: 1\n");
    let expected = document("a:\n  b:\n    - c: 1\n");
    assert_eq!(process_yaml(&tree, &ReplacementTable::new()), expected);
}

#[test]
fn rewrite_removes_every_marker_of_a_key() {
    let tree = document("\"a|expandb|expand\": 1\n\"|expandc\": 2\n");
    let expected = document("ab: 1\nc: 2\n");
    assert_eq!(process_yaml(&tree, &ReplacementTable::new()), expected);
}

#[test]
fn rewrite_expands_under_an_unmarked_key_too() {
    let tree = document("plain: \"x%p%\"\n");
    let mut expected = Mapping::new();
    expected.insert(text("plain"), texts(&["x1", "x2"]));
    assert_eq!(
        process_yaml(&tree, &table(&[("%p%", &["1", "2"])])),
        Tree::Mapping(expected)
    );
}

#[test]
fn rewrite_does_not_expand_under_a_key_that_is_no_text() {
    let mut input = Mapping::new();
    input.insert(Tree::Integer(1), text("%p%"));
    input.insert(Tree::Null, text("%p%"));
    input.insert(texts(&["k|expand"]), text("%p%"));
    let tree = Tree::Mapping(input);
    assert_eq!(process_yaml(&tree, &table(&[("%p%", &["1", "2"])])), tree);
}

#[test]
fn rewrite_rewrites_the_value_under_a_key_that_is_no_text() {
    let tree = document("1:\n  a|expand: \"%p%\"\n");
    let mut inner = Mapping::new();
    inner.insert(text("a"), texts(&["v"]));
    let mut expected = Mapping::new();
    expected.insert(Tree::Integer(1), Tree::Mapping(inner));
    assert_eq!(
        process_yaml(&tree, &table(&[("%p%", &["v"])])),
        Tree::Mapping(expected)
    );
}

#[test]
fn rewrite_does_not_expand_the_members_of_a_sequence() {
    let tree = document("k|expand:\n  - \"%p%\"\n  - other\n");
    let expected = document("k:\n  - \"%p%\"\n  - other\n");
    assert_eq!(process_yaml(&tree, &table(&[("%p%", &["1", "2"])])), expected);
}

#[test]
fn rewrite_expands_inside_a_mapping_that_is_a_member_of_a_sequence() {
    let tree = document("k:\n  - a|expand: \"%p%\"\n");
    let mut inner = Mapping::new();
    inner.insert(text("a"), texts(&["1", "2"]));
    let mut expected = Mapping::new();
    expected.insert(text("k"), Tree::Sequence(vec![Tree::Mapping(inner)]));
    assert_eq!(
        process_yaml(&tree, &table(&[("%p%", &["1", "2"])])),
        Tree::Mapping(expected)
    );
}

#[test]
fn rewrite_puts_a_key_that_comes_again_at_the_back() {
    let tree = document("a|expand: first\nb: second\na: third\n");
    let out = process_yaml(&tree, &ReplacementTable::new());
    let mut expected = Mapping::new();
    expected.insert(text("b"), text("second"));
    expected.insert(text("a"), text("third"));
    assert_eq!(out, Tree::Mapping(expected));
    match &out {
        Tree::Mapping(m) => {
            let entries = m.entries();
            assert_eq!(entries.len(), 2);
            assert_eq!(entries[0].0, &text("b"));
            assert_eq!(entries[1], (&text("a"), &text("third")));
        }
        other => panic!("not a mapping: {:?}", other),
    }
}

#[test]
fn rewrite_does_not_change_its_input() {
    let tree = document("a|expand: \"%p%\"\n");
    let copy = tree.clone();
    let _ = process_yaml(&tree, &table(&[("%p%", &["1"])]));
    assert_eq!(tree, copy);
}

#[test]
fn substitution_passes_a_text_without_placeholder_through() {
    let replacements = table(&[("%p%", &["1", "2"]), ("%q%", &["3"])]);
    assert_eq!(process_value(&text("value1"), &replacements), text("value1"));
    assert_eq!(process_value(&text(""), &replacements), text(""));
    assert_eq!(process_value(&text("%p"), &replacements), text("%p"));
    assert_eq!(process_value(&text("x"), &ReplacementTable::new()), text("x"));
}

#[test]
fn substitution_gives_one_text_for_each_member_of_the_list() {
    let replacements = table(&[("%p%", &["a", "b", "c"])]);
    assert_eq!(
        process_value(&text("<%p%>"), &replacements),
        texts(&["<a>", "<b>", "<c>"])
    );
    assert_eq!(
        process_value(&text("%p%"), &table(&[("%p%", &["only"])])),
        texts(&["only"])
    );
}

#[test]
fn substitution_replaces_every_occurrence_of_the_placeholder() {
    let replacements = table(&[("%p%", &["a", "b"])]);
    assert_eq!(
        process_value(&text("%p%-%p%"), &replacements),
        texts(&["a-a", "b-b"])
    );
}

#[test]
fn substitution_does_not_combine_two_placeholders() {
    let replacements = table(&[("%p%", &["1", "2"]), ("%q%", &["x", "y"])]);
    assert_eq!(
        process_value(&text("%p%+%q%"), &replacements),
        texts(&["1+%q%", "2+%q%", "%p%+x", "%p%+y"])
    );
}

#[test]
fn substitution_goes_by_the_order_of_the_table() {
    let replacements = table(&[("%q%", &["x"]), ("%p%", &["1"])]);
    assert_eq!(
        process_value(&text("%p%%q%"), &replacements),
        texts(&["%p%x", "1%q%"])
    );
}

#[test]
fn substitution_skips_a_placeholder_that_does_not_occur() {
    let replacements = table(&[("%a%", &["1"]), ("%b%", &["2", "3"]), ("%c%", &["4"])]);
    assert_eq!(process_value(&text("x%b%"), &replacements), texts(&["x2", "x3"]));
}

#[test]
fn substitution_with_an_empty_list_leaves_the_text() {
    let replacements = table(&[("%p%", &[])]);
    assert_eq!(process_value(&text("x%p%"), &replacements), text("x%p%"));
}

#[test]
fn substitution_matches_a_placeholder_as_a_substring() {
    let replacements = table(&[("lace", &["X"])]);
    assert_eq!(process_value(&text("placeholder"), &replacements), texts(&["pXholder"]));
}

#[test]
fn substitution_takes_the_empty_placeholder_as_std_does() {
    let replacements = table(&[("", &["-"])]);
    assert_eq!(process_value(&text("ab"), &replacements), texts(&["-a-b-"]));
    assert_eq!(process_value(&text("ab"), &replacements), texts(&[&"ab".replace("", "-")]));
}

#[test]
fn substitution_rewrites_a_sequence_member_by_member() {
    let replacements = table(&[("%p%", &["1"])]);
    let value = Tree::Sequence(vec![text("%p%"), document("a|expand: \"%p%\"\n")]);
    let mut inner = Mapping::new();
    inner.insert(text("a"), texts(&["1"]));
    assert_eq!(
        process_value(&value, &replacements),
        Tree::Sequence(vec![text("%p%"), Tree::Mapping(inner)])
    );
}

#[test]
fn substitution_rewrites_what_is_no_text() {
    let replacements = table(&[("1", &["x"])]);
    assert_eq!(process_value(&Tree::Integer(1), &replacements), Tree::Integer(1));
    assert_eq!(
        process_value(&Tree::Float("1.5".to_string()), &replacements),
        Tree::Float("1.5".to_string())
    );
    assert_eq!(process_value(&Tree::Null, &replacements), Tree::Null);
    assert_eq!(
        process_value(&document("k|expand: 1\n"), &replacements),
        document("k: 1\n")
    );
}

#[test]
fn a_table_keeps_the_order_of_its_placeholders() {
    let mut replacements = ReplacementTable::new();
    assert_eq!(replacements.len(), 0);
    replacements.insert("b".to_string(), list(&["1"]));
    replacements.insert("a".to_string(), list(&["2", "3"]));
    replacements.insert("b".to_string(), list(&["4"]));
    assert_eq!(replacements.len(), 2);
    assert_eq!(
        replacements.pairs(),
        &vec![
            ("b".to_string(), list(&["4"])),
            ("a".to_string(), list(&["2", "3"])),
        ]
    );
}
