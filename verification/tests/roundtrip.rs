use jprops::Properties;

#[test]
fn dump_then_load_restores_pairs() {
    let mut props = Properties::default();
    props.insert_str("alpha", "one two");
    props.insert_str("beta", "3");
    props.insert_str("alpha", "four");

    let text = props.dump();
    let reloaded = Properties::load(text.as_bytes()).unwrap();

    assert_eq!(reloaded.len(), 3);
    let mut it = reloaded.key_values();
    assert_eq!(it.next(), Some(("alpha", "one two")));
    assert_eq!(it.next(), Some(("beta", "3")));
    assert_eq!(it.next(), Some(("alpha", "four")));
    assert_eq!(it.next(), None);
    assert_eq!(reloaded.dump(), text);
}

#[test]
fn delete_removes_matches_and_no_others() {
    let mut props = Properties::default();
    props.insert_str("a", "1");
    props.insert_str("b", "2");
    props.insert_str("a", "3");
    props.insert_str("c", "4");

    props.delete("a");

    assert_eq!(props.len(), 2);
    assert_eq!(props.dump(), "b=2\nc=4\n");
}

#[test]
fn get_all_keeps_order_across_other_keys() {
    let mut props = Properties::default();
    props.insert_str("k", "first");
    props.insert_str("other", "x");
    props.insert_str("k", "second");
    props.insert_str("another", "y");
    props.insert_str("k", "third");

    assert_eq!(props.get_all("k"), vec!["first", "second", "third"]);
}

#[test]
fn merge_appends_and_keeps_duplicates() {
    let mut a = Properties::default();
    a.insert_str("k", "1");
    a.insert_str("x", "left");

    let mut b = Properties::default();
    b.insert_str("k", "2");
    b.insert_str("y", "right");

    a.merge(b);

    assert_eq!(a.len(), 4);
    assert_eq!(a.get_all("k"), vec!["1", "2"]);
    assert_eq!(a.dump(), "k=1\nx=left\nk=2\ny=right\n");
}
