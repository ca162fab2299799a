use sgf::PropertyMap;

fn strings(values: &[&str]) -> Vec<String> {
    values.iter().map(|v| v.to_string()).collect()
}

#[test]
fn new_map_is_empty() {
    let map = PropertyMap::new();
    assert_eq!(map.len(), 0);
    assert!(!map.contains_key("A"));
    assert!(map.get("A").is_none());
}

#[test]
fn insert_binds_in_the_order_of_arrival() {
    let mut map = PropertyMap::new();
    map.insert("B".to_string(), strings(&["1"]));
    map.insert("A".to_string(), strings(&["2", "3"]));
    assert_eq!(map.len(), 2);
    assert_eq!(map.key_at(0), "B");
    assert_eq!(map.key_at(1), "A");
    assert_eq!(map.values_at(1), &strings(&["2", "3"]));
    assert_eq!(map.get("A"), Some(&strings(&["2", "3"])));
    assert_eq!(map.get("B"), Some(&strings(&["1"])));
    assert!(map.contains_key("A"));
    assert!(!map.contains_key("C"));
    assert!(!map.contains_key(""));
}

#[test]
fn insert_replaces_an_earlier_binding() {
    let mut map = PropertyMap::new();
    map.insert("A".to_string(), strings(&["1"]));
    map.insert("B".to_string(), strings(&["2"]));
    map.insert("A".to_string(), strings(&["3"]));
    assert_eq!(map.len(), 2);
    assert_eq!(map.key_at(0), "B");
    assert_eq!(map.key_at(1), "A");
    assert_eq!(map.get("A"), Some(&strings(&["3"])));
}

#[test]
fn remove_takes_out_one_binding() {
    let mut map = PropertyMap::new();
    map.insert("A".to_string(), strings(&["1"]));
    map.insert("B".to_string(), strings(&["2"]));
    map.insert("C".to_string(), strings(&["3"]));
    map.remove("B");
    assert_eq!(map.len(), 2);
    assert_eq!(map.key_at(0), "A");
    assert_eq!(map.key_at(1), "C");
    map.remove("B");
    assert_eq!(map.len(), 2);
    map.remove("A");
    map.remove("C");
    assert_eq!(map.len(), 0);
}

#[test]
fn from_entries_keeps_the_order() {
    let entries = vec![
        ("B".to_string(), strings(&["1"])),
        ("A".to_string(), strings(&["2", "3"])),
    ];
    let map = PropertyMap::from_entries(entries).unwrap();
    assert_eq!(map.len(), 2);
    assert_eq!(map.key_at(0), "B");
    assert_eq!(map.values_at(1), &strings(&["2", "3"]));
    assert_eq!(PropertyMap::from_entries(vec![]).unwrap().len(), 0);
}

#[test]
fn from_entries_refuses_a_repeated_identifier() {
    let entries = vec![
        ("A".to_string(), strings(&["1"])),
        ("B".to_string(), strings(&["2"])),
        ("A".to_string(), strings(&["3"])),
    ];
    assert!(PropertyMap::from_entries(entries).is_none());
}

#[test]
fn from_entries_refuses_a_property_without_values() {
    let entries = vec![("A".to_string(), strings(&["1"])), ("B".to_string(), strings(&[]))];
    assert!(PropertyMap::from_entries(entries).is_none());
}

#[test]
fn identifiers_are_compared_by_their_characters() {
    let mut map = PropertyMap::new();
    map.insert("é".to_string(), strings(&["1"]));
    map.insert("e".to_string(), strings(&["2"]));
    map.insert("AB".to_string(), strings(&["3"]));
    assert_eq!(map.get("é"), Some(&strings(&["1"])));
    assert_eq!(map.get("e"), Some(&strings(&["2"])));
    assert!(!map.contains_key("A"));
    assert!(!map.contains_key("ABC"));
}
