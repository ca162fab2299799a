use sgf::SgfCollection;

#[test]
fn test_get_number() {
    let node = &SgfCollection::from_sgf("(;CA[UTF-8]FF[4])").unwrap()[0];
    assert_eq!(node.get_number("FF").unwrap(), 4);
}

#[test]
fn test_get_points() {
    let node = &SgfCollection::from_sgf("(;CA[UTF-8]FF[4]KM[6.5]AB[ab])").unwrap()[0];
    assert_eq!(node.get_points("AB").unwrap(), vec!["ab".to_string()]);
}

#[test]
fn test_get_point() {
    let node = &SgfCollection::from_sgf("(;CA[UTF-8]FF[4]KM[6.5];B[ab])").unwrap()[0];
    assert_eq!(node.children[0].get_point("B").unwrap(), "ab".to_string());
}

#[test]
fn test_get_text() {
    let node = &SgfCollection::from_sgf("(;CA[UTF-8]FF[4]GC[text\ntext])").unwrap()[0];
    assert_eq!(node.get_text("GC").unwrap(), "text\ntext".to_string());
}

#[test]
fn test_get_simple_text() {
    let node = &SgfCollection::from_sgf("(;CA[UTF-8]FF[4]N[simple\\\ntext\nsimple])").unwrap()[0];
    assert_eq!(node.get_simple_text("N").unwrap(), "simpletext simple".to_string());
}

#[test]
fn test_get_simple_text_simple_text() {
    let node = &SgfCollection::from_sgf("(;CA[UTF-8]FF[4]AP[mimiaka:1.0])").unwrap()[0];
    assert_eq!(node.get_simple_text_simple_text("AP").unwrap(), ("mimiaka".to_string(), "1.0".to_string()));
}

#[test]
fn test_set_text() {
    let node = &mut SgfCollection::from_sgf("(;CA[UTF-8]FF[4]AP[mimiaka:1.0])").unwrap()[0];
    node.set_text("GC", "test:".to_string());
    assert_eq!(node.get_text("GC").unwrap(), "test:".to_string());
}
