use sgf::{sgf_parse, write_sgf, PropertyMap, SgfCollection, SgfNode};

fn node(id: &str, value: &str) -> SgfNode {
    let mut properties = PropertyMap::new();
    properties.insert(id.to_string(), vec![value.to_string()]);
    SgfNode::new(properties)
}

#[test]
fn single_root_has_its_properties_and_no_children() {
    let collection = sgf_parse("(;CA[UTF-8]FF[4])").unwrap();
    assert_eq!(collection.len(), 1);
    let root = &collection[0];
    assert_eq!(root.children.len(), 0);
    assert_eq!(root.properties.len(), 2);
    assert_eq!(root.properties.key_at(0), "CA");
    assert_eq!(root.properties.values_at(0), &vec!["UTF-8".to_string()]);
    assert_eq!(root.properties.key_at(1), "FF");
    assert_eq!(root.properties.values_at(1), &vec!["4".to_string()]);
}

#[test]
fn sequence_becomes_a_straight_line() {
    let collection = sgf_parse("(;A[1];B[2];C[3])").unwrap();
    let first = &collection[0];
    assert_eq!(first.get_point("A").unwrap(), "1");
    assert_eq!(first.children.len(), 1);
    let second = &first.children[0];
    assert_eq!(second.get_point("B").unwrap(), "2");
    assert_eq!(second.children.len(), 1);
    let third = &second.children[0];
    assert_eq!(third.get_point("C").unwrap(), "3");
    assert_eq!(third.children.len(), 0);
}

#[test]
fn variations_go_below_the_end_of_the_main_line() {
    let collection = sgf_parse("(;A[1];B[2](;C[3])(;D[4];E[5]))").unwrap();
    let b = &collection[0].children[0];
    assert_eq!(b.get_point("B").unwrap(), "2");
    assert_eq!(b.children.len(), 2);
    assert_eq!(b.children[0].get_point("C").unwrap(), "3");
    assert_eq!(b.children[1].get_point("D").unwrap(), "4");
    assert_eq!(b.children[1].children[0].get_point("E").unwrap(), "5");
}

#[test]
fn one_variation_continues_the_main_line() {
    let collection = sgf_parse("(;A[1](;B[2]))").unwrap();
    assert_eq!(collection[0].children.len(), 1);
    assert_eq!(collection[0].children[0].get_point("B").unwrap(), "2");
    assert_eq!(collection.len(), 1);
}

#[test]
fn collection_holds_every_game_tree() {
    let collection = SgfCollection::from_sgf("(;GC[one]) (;GC[two])\n(;GC[three])").unwrap();
    assert_eq!(collection.len(), 3);
    assert_eq!(collection[0].get_point("GC").unwrap(), "one");
    assert_eq!(collection[2].get_point("GC").unwrap(), "three");
}

#[test]
fn blanks_between_tokens_are_skipped() {
    let collection = sgf_parse(" \t(\r\n ; A\n[1] [2]\t B [3] ; C [4] ( ; D[5] ) )").unwrap();
    let root = &collection[0];
    assert_eq!(root.get_points("A").unwrap(), vec!["1".to_string(), "2".to_string()]);
    assert_eq!(root.get_point("B").unwrap(), "3");
    assert_eq!(root.children[0].get_point("C").unwrap(), "4");
    assert_eq!(root.children[0].children[0].get_point("D").unwrap(), "5");
}

#[test]
fn the_letter_v_counts_as_a_blank() {
    let collection = sgf_parse("v(v;vAv[1]v;vB[2]v)").unwrap();
    assert_eq!(collection[0].get_point("A").unwrap(), "1");
    assert_eq!(collection[0].children[0].get_point("B").unwrap(), "2");
    // Inside a value it is a letter like any other.
    let collection = sgf_parse("(;A[vivid])").unwrap();
    assert_eq!(collection[0].get_point("A").unwrap(), "vivid");
}

#[test]
fn values_are_kept_as_they_are_written() {
    let collection = sgf_parse("(;C[a\\]b\\\\\\:c \n d])").unwrap();
    assert_eq!(collection[0].get_point("C").unwrap(), "a\\]b\\\\\\:c \n d");
    let collection = sgf_parse("(;C[])").unwrap();
    assert_eq!(collection[0].get_point("C").unwrap(), "");
    let collection = sgf_parse("(;C[[(;])").unwrap();
    assert_eq!(collection[0].get_point("C").unwrap(), "[(;");
}

#[test]
fn values_may_hold_any_character() {
    let collection = sgf_parse("(;PB[日本語]PW[é😀]C[\u{80}])").unwrap();
    assert_eq!(collection[0].get_point("PB").unwrap(), "日本語");
    assert_eq!(collection[0].get_point("PW").unwrap(), "é😀");
    assert_eq!(collection[0].get_point("C").unwrap(), "\u{80}");
}

#[test]
fn node_without_properties_is_a_node() {
    let collection = sgf_parse("(;;A[1];)").unwrap();
    let root = &collection[0];
    assert_eq!(root.properties.len(), 0);
    assert_eq!(root.children[0].get_point("A").unwrap(), "1");
    assert_eq!(root.children[0].children[0].properties.len(), 0);
}

#[test]
fn chain_puts_each_node_below_the_one_before() {
    let root = SgfNode::chain(vec![node("A", "1"), node("B", "2"), node("C", "3")]);
    assert_eq!(root.to_string(), ";A[1];B[2];C[3]");
    let root = SgfNode::chain(vec![node("A", "1")]);
    assert_eq!(root.to_string(), ";A[1]");
    assert_eq!(root.children.len(), 0);
}

#[test]
fn leaf_mut_finds_the_end_of_the_main_line() {
    let mut root = SgfNode::chain(vec![node("A", "1"), node("B", "2"), node("C", "3")]);
    assert_eq!(root.leaf_mut().get_point("C").unwrap(), "3");
    root.leaf_mut().set_point("C", "changed".to_string());
    assert_eq!(root.to_string(), ";A[1];B[2];C[changed]");
    let mut alone = node("A", "1");
    assert_eq!(alone.leaf_mut().get_point("A").unwrap(), "1");
}

#[test]
fn leaf_mut_follows_the_first_child() {
    let mut root = sgf_parse("(;A[1](;B[2];C[3])(;D[4]))").unwrap().remove(0);
    assert_eq!(root.leaf_mut().get_point("C").unwrap(), "3");
}

#[test]
fn attach_appends_below_the_end_of_the_main_line() {
    let mut root = SgfNode::chain(vec![node("A", "1"), node("B", "2")]);
    root.attach(vec![node("C", "3"), node("D", "4")]);
    assert_eq!(root.to_string(), ";A[1];B[2](;C[3])(;D[4])");
    assert_eq!(root.children[0].children.len(), 2);
    let mut root = node("A", "1");
    root.attach(vec![]);
    assert_eq!(root.to_string(), ";A[1]");
}

#[test]
fn collection_is_made_of_its_game_trees() {
    let collection = SgfCollection::new(vec![node("A", "1"), node("B", "2")]);
    assert_eq!(collection.len(), 2);
    assert_eq!(collection.to_string(), "(;A[1])(;B[2])");
    let games = collection.into_games();
    assert_eq!(games.len(), 2);
    assert_eq!(SgfCollection::new(vec![]).to_string(), "");
}

#[test]
fn collection_can_be_changed_in_place() {
    let mut collection = SgfCollection::from_sgf("(;A[1])(;B[2])").unwrap();
    collection[1].set_point("B", "3".to_string());
    assert_eq!(collection.to_string(), "(;A[1])(;B[3])");
}

#[test]
fn writing_keeps_the_order_of_properties_and_values() {
    let sgf = "(;FF[4]GM[1]AB[aa][bb][cc]C[x];B[dd](;W[ee])(;W[ff];B[gg]))(;FF[3])";
    let collection = sgf_parse(sgf).unwrap();
    let mut output = String::new();
    write_sgf(&mut output, &collection);
    assert_eq!(output, sgf);
    assert_eq!(SgfCollection::from_sgf(sgf).unwrap().to_string(), sgf);
}

#[test]
fn writing_appends_to_what_is_there() {
    let collection = sgf_parse("(;A[1])").unwrap();
    let mut output = "before".to_string();
    write_sgf(&mut output, &collection);
    assert_eq!(output, "before(;A[1])");
    write_sgf(&mut output, &Vec::new());
    assert_eq!(output, "before(;A[1])");
}

#[test]
fn writing_drops_the_blanks() {
    let collection = sgf_parse(" ( ; A [1]\n [2] ; B [3] )").unwrap();
    let mut output = String::new();
    write_sgf(&mut output, &collection);
    assert_eq!(output, "(;A[1][2];B[3])");
}

#[test]
fn node_is_listed_for_debugging() {
    let root = sgf_parse("(;GC[test]AB[aa][bb])").unwrap().remove(0);
    assert_eq!(root.debug_string(), "{\n    GC: test\n    AB: [aa][bb]\n}");
    let root = sgf_parse("(;)").unwrap().remove(0);
    assert_eq!(root.debug_string(), "{\n}");
}

#[test]
fn node_is_written_with_what_is_below_it() {
    let root = sgf_parse("(;A[1](;B[2])(;C[3]))").unwrap().remove(0);
    assert_eq!(root.to_string(), ";A[1](;B[2])(;C[3])");
    let mut out = "x".to_string();
    root.children[1].fmt_sgf(&mut out);
    assert_eq!(out, "x;C[3]");
    let mut out = String::new();
    root.write_properties(&mut out);
    assert_eq!(out, "A[1]");
}
