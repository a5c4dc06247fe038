use yaml_expand::assoc::{find, put};

fn entries(pairs: &[(&str, u8)]) -> Vec<(String, u8)> {
    pairs.iter().map(|(key, value)| (key.to_string(), *value)).collect()
}

#[test]
fn find_gives_the_first_index_of_a_key() {
    let list = entries(&[("a", 1), ("b", 2), ("a", 3)]);
    assert_eq!(find(&list, &"a".to_string()), Some(0));
    assert_eq!(find(&list, &"b".to_string()), Some(1));
    assert_eq!(find(&list, &"c".to_string()), None);
    assert_eq!(find(&Vec::<(String, u8)>::new(), &"a".to_string()), None);
}

#[test]
fn put_appends_a_new_key() {
    let mut list = entries(&[("a", 1)]);
    put(&mut list, "b".to_string(), 2);
    assert_eq!(list, entries(&[("a", 1), ("b", 2)]));
}

#[test]
fn put_overwrites_a_key_in_place() {
    let mut list = entries(&[("a", 1), ("b", 2), ("c", 3)]);
    put(&mut list, "b".to_string(), 9);
    assert_eq!(list, entries(&[("a", 1), ("b", 9), ("c", 3)]));
}
