use sgf::sgf_parse;
use sgf::write_sgf;
use sgf::SgfCollection;

#[test]
fn test_parse1() {
    let result = sgf_parse("(;CA[UTF-8]FF[4])");
    assert!(result.is_ok());
}

#[test]
fn test_parse2() {
    let node = &sgf_parse("(;FF[4]C[root](;C[a];C[b](;C[c])
        (;C[d];C[e]))
        (;C[f](;C[g];C[h];C[i])
        (;C[j])))").unwrap()[0];
    assert!(node.children.len() == 2 && node.children[0].children[0].children.len() == 2);
}

#[test]
fn test_parse_fail() {
    // An identifier that is bound twice in one node is refused; an identifier
    // of three letters is an identifier like any other.
    let result = sgf_parse("(;CA[UTF-8]CA[4])");
    assert!(result.is_err());
    let result = sgf_parse("(;CA[UTF-8]FFF[4])");
    assert!(result.is_ok());
}

#[test]
fn test_write_sgf() {
    let sgf = "(;FF[4];C[a];C[b](;C[c])(;C[d];C[e])(;C[f](;C[g];C[h];C[i])(;C[j])))";
    let collection = sgf_parse(sgf).unwrap();
    let mut output = String::new();
    write_sgf(&mut output, &collection);
    assert_eq!(&output, sgf);
}

#[test]
fn test_from_sgf1() {
    let result = SgfCollection::from_sgf("(;CA[UTF-8]FF[4])");
    assert!(result.is_ok());
}

#[test]
fn test_from_sgf2() {
    let node = &SgfCollection::from_sgf("(;FF[4]C[root](;C[a];C[b](;C[c])
            (;C[d];C[e]))
            (;C[f](;C[g];C[h];C[i])
            (;C[j])))").unwrap()[0];
    assert!(node.children.len() == 2 && node.children[0].children[0].children.len() == 2);
}

#[test]
fn test_from_sgf_long_propid() {
    let result = SgfCollection::from_sgf("(;CA[UTF-8]LONGNAME[])");
    assert!(result.is_ok());
}

#[test]
fn test_fmt() {
    let sgf = "(;FF[4];C[a];C[b](;C[c])(;C[d];C[e])(;C[f](;C[g];C[h];C[i])(;C[j])))";
    let collection = SgfCollection::from_sgf(sgf).unwrap();
    let string = collection.to_string();
    assert_eq!(&string, sgf);
}

#[test]
fn test_index() {
    let sgf = "(;FF[4]GC[game1])(;FF[4]GC[game2])";
    let collection = SgfCollection::from_sgf(sgf).unwrap();
    assert_eq!(collection[1].get_simple_text("GC").unwrap(), "game2".to_string());
}
