use geoconverter::geo_struct::{find_entry, insert_entry, KeyValueEntry, ReaderElementPointer};
use geoconverter::ReaderElement;

fn entry(key: &str, value: ReaderElement) -> KeyValueEntry {
    KeyValueEntry { key: key.to_string(), value }
}

fn tree() -> ReaderElement {
    ReaderElement::Array(vec![
        ReaderElement::Int(1),
        ReaderElement::KeyValueObject(vec![
            entry("a", ReaderElement::Int(2)),
            entry(
                "b",
                ReaderElement::Array(vec![ReaderElement::Text("x".to_string()), ReaderElement::Null]),
            ),
        ]),
    ])
}

#[test]
fn a_path_leads_to_a_node() {
    let root = tree();
    let mut p = ReaderElementPointer::new();
    assert_eq!(format!("{:?}", p.locate_key_in(&root)), format!("{:?}", Some(&root)));
    p.add_array_index(1);
    p.add_map_index("b".to_string());
    p.add_array_index(0);
    assert_eq!(format!("{:?}", p.locate_key_in(&root)), "Some(Text(\"x\"))");
    let mut q = ReaderElementPointer::new();
    q.add_array_index(1);
    q.add_map_index("a".to_string());
    assert_eq!(format!("{:?}", q.locate_key_in(&root)), "Some(Int(2))");
}

#[test]
fn a_path_that_meets_nothing_finds_nothing() {
    let root = tree();
    let mut p = ReaderElementPointer::new();
    p.add_array_index(2);
    assert!(p.locate_key_in(&root).is_none());
    let mut p = ReaderElementPointer::new();
    p.add_map_index("a".to_string());
    assert!(p.locate_key_in(&root).is_none());
    let mut p = ReaderElementPointer::new();
    p.add_array_index(1);
    p.add_array_index(0);
    assert!(p.locate_key_in(&root).is_none());
    let mut p = ReaderElementPointer::new();
    p.add_array_index(1);
    p.add_map_index("c".to_string());
    assert!(p.locate_key_in(&root).is_none());
    let mut p = ReaderElementPointer::new();
    p.add_array_index(0);
    p.add_array_index(0);
    assert!(p.locate_key_in(&root).is_none());
}

#[test]
fn the_node_at_a_path_can_be_changed() {
    let mut root = tree();
    let mut p = ReaderElementPointer::new();
    p.add_array_index(1);
    p.add_map_index("b".to_string());
    p.add_array_index(1);
    match p.locate_key_in_mut(&mut root) {
        Some(node) => *node = ReaderElement::Bool(true),
        None => panic!("nothing found"),
    }
    assert_eq!(
        format!("{:?}", root),
        "Array([Int(1), KeyValueObject([KeyValueEntry { key: \"a\", value: Int(2) }, KeyValueEntry { key: \"b\", value: Array([Text(\"x\"), Bool(true)]) }])])"
    );
    let mut q = ReaderElementPointer::new();
    q.add_array_index(5);
    assert!(q.locate_key_in_mut(&mut root).is_none());
    let whole = ReaderElementPointer::new();
    match whole.locate_key_in_mut(&mut root) {
        Some(node) => *node = ReaderElement::Null,
        None => panic!("nothing found"),
    }
    assert_eq!(format!("{:?}", root), "Null");
}

#[test]
fn entries_are_found_and_set_by_key() {
    let mut entries = vec![entry("a", ReaderElement::Int(1)), entry("b", ReaderElement::Int(2))];
    assert_eq!(find_entry(&entries, &"a".to_string()), Some(0));
    assert_eq!(find_entry(&entries, &"b".to_string()), Some(1));
    assert_eq!(find_entry(&entries, &"c".to_string()), None);
    insert_entry(&mut entries, "a".to_string(), ReaderElement::Int(3));
    insert_entry(&mut entries, "c".to_string(), ReaderElement::Int(4));
    assert_eq!(
        format!("{:?}", entries),
        "[KeyValueEntry { key: \"a\", value: Int(3) }, KeyValueEntry { key: \"b\", value: Int(2) }, KeyValueEntry { key: \"c\", value: Int(4) }]"
    );
}
