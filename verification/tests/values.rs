use sgf::accessors::{char_to_string, clone_strings, join_compose, one_value, split_compose};
use sgf::{sgf_parse, PropertyMap, SgfError, SgfNode};

fn root(sgf: &str) -> SgfNode {
    sgf_parse(sgf).unwrap().remove(0)
}

#[test]
fn missing_property_is_reported_by_every_getter() {
    let node = root("(;FF[4])");
    assert_eq!(node.get_property("XX").unwrap_err(), SgfError::NoProperties);
    assert_eq!(node.get_point("XX").unwrap_err(), SgfError::NoProperties);
    assert_eq!(node.get_points("XX").unwrap_err(), SgfError::NoProperties);
    assert_eq!(node.get_number("XX").unwrap_err(), SgfError::NoProperties);
    assert_eq!(node.get_color("XX").unwrap_err(), SgfError::NoProperties);
    assert_eq!(node.get_double("XX").unwrap_err(), SgfError::NoProperties);
    assert_eq!(node.get_text("XX").unwrap_err(), SgfError::NoProperties);
    assert_eq!(node.get_simple_text("XX").unwrap_err(), SgfError::NoProperties);
    assert_eq!(node.get_point_point("XX").unwrap_err(), SgfError::NoProperties);
    assert_eq!(node.get_point_simple_text("XX").unwrap_err(), SgfError::NoProperties);
    assert_eq!(node.get_simple_text_simple_text("XX").unwrap_err(), SgfError::NoProperties);
    assert_eq!(node.get_number_number("XX").unwrap_err(), SgfError::NoProperties);
    assert_eq!(node.get_number_simple_text("XX").unwrap_err(), SgfError::NoProperties);
}

#[test]
fn get_property_gives_every_value() {
    let node = root("(;AB[aa][bb][cc])");
    assert_eq!(node.get_property("AB").unwrap(), &vec!["aa".to_string(), "bb".to_string(), "cc".to_string()]);
    assert_eq!(node.get_points("AB").unwrap(), vec!["aa".to_string(), "bb".to_string(), "cc".to_string()]);
    assert_eq!(node.get_point("AB").unwrap(), "aa");
}

#[test]
fn get_number_reads_the_first_value() {
    assert_eq!(root("(;HA[-3])").get_number("HA").unwrap(), -3);
    assert_eq!(root("(;HA[12][x])").get_number("HA").unwrap(), 12);
    assert_eq!(root("(;HA[x])").get_number("HA").unwrap_err(), SgfError::ParseError);
    assert_eq!(root("(;HA[])").get_number("HA").unwrap_err(), SgfError::ParseError);
    assert_eq!(root("(;HA[6.5])").get_number("HA").unwrap_err(), SgfError::ParseError);
    assert_eq!(root("(;HA[ 4])").get_number("HA").unwrap_err(), SgfError::ParseError);
}

#[test]
fn get_color_reads_the_first_character() {
    assert_eq!(root("(;PL[B])").get_color("PL").unwrap(), 'B');
    assert_eq!(root("(;PL[White])").get_color("PL").unwrap(), 'W');
    assert_eq!(root("(;PL[白])").get_color("PL").unwrap(), '白');
    assert_eq!(root("(;PL[])").get_color("PL").unwrap_err(), SgfError::EmptyProperty);
    assert_eq!(root("(;DM[2])").get_double("DM").unwrap(), '2');
    assert_eq!(root("(;DM[])").get_double("DM").unwrap_err(), SgfError::EmptyProperty);
}

#[test]
fn get_text_takes_out_soft_line_breaks_and_escapes() {
    let node = root("(;C[one\\\ntwo\\\r\nthree\\]\\\\\\:four\nfive])");
    assert_eq!(node.get_text("C").unwrap(), "onetwothree]\\:four\nfive");
    assert_eq!(node.get_simple_text("C").unwrap(), "onetwothree]\\:four five");
}

#[test]
fn pairs_are_split_at_the_first_colon() {
    let node = root("(;AR[aa:bb]LB[cc:a\\:b\nc]AP[x\\]y:1:2]N[none])");
    assert_eq!(node.get_point_point("AR").unwrap(), ("aa".to_string(), "bb".to_string()));
    assert_eq!(node.get_point_simple_text("LB").unwrap(), ("cc".to_string(), "a:b c".to_string()));
    assert_eq!(
        node.get_simple_text_simple_text("AP").unwrap(),
        ("x]y".to_string(), "1:2".to_string())
    );
    assert_eq!(node.get_point_point("AP").unwrap(), ("x\\]y".to_string(), "1:2".to_string()));
    assert_eq!(node.get_point_point("N").unwrap_err(), SgfError::EmptyProperty);
    assert_eq!(node.get_point_simple_text("N").unwrap_err(), SgfError::EmptyProperty);
    assert_eq!(node.get_simple_text_simple_text("N").unwrap_err(), SgfError::EmptyProperty);
}

#[test]
fn pairs_may_have_empty_parts() {
    let node = root("(;A[:]B[:x]C[x:]D[])");
    assert_eq!(node.get_point_point("A").unwrap(), ("".to_string(), "".to_string()));
    assert_eq!(node.get_point_point("B").unwrap(), ("".to_string(), "x".to_string()));
    assert_eq!(node.get_point_point("C").unwrap(), ("x".to_string(), "".to_string()));
    assert_eq!(node.get_point_point("D").unwrap_err(), SgfError::EmptyProperty);
}

#[test]
fn number_pairs_read_the_first_part_before_they_look_for_the_second() {
    let node = root("(;A[19:13]B[19]C[x]D[19:x]E[x:13]F[-1:+2]G[:1]H[1:])");
    assert_eq!(node.get_number_number("A").unwrap(), (19, 13));
    assert_eq!(node.get_number_number("B").unwrap_err(), SgfError::EmptyProperty);
    assert_eq!(node.get_number_number("C").unwrap_err(), SgfError::ParseError);
    assert_eq!(node.get_number_number("D").unwrap_err(), SgfError::ParseError);
    assert_eq!(node.get_number_number("E").unwrap_err(), SgfError::ParseError);
    assert_eq!(node.get_number_number("F").unwrap(), (-1, 2));
    assert_eq!(node.get_number_number("G").unwrap_err(), SgfError::ParseError);
    assert_eq!(node.get_number_number("H").unwrap_err(), SgfError::ParseError);
}

#[test]
fn number_and_text_pairs_decode_the_text() {
    let node = root("(;FG[257:Figure\\: one\ntwo]B[19]C[x]D[x:y]E[1:])");
    assert_eq!(node.get_number_simple_text("FG").unwrap(), (257, "Figure: one two".to_string()));
    assert_eq!(node.get_number_simple_text("B").unwrap_err(), SgfError::EmptyProperty);
    assert_eq!(node.get_number_simple_text("C").unwrap_err(), SgfError::ParseError);
    assert_eq!(node.get_number_simple_text("D").unwrap_err(), SgfError::ParseError);
    assert_eq!(node.get_number_simple_text("E").unwrap(), (1, "".to_string()));
}

#[test]
fn setters_bind_what_getters_read() {
    let mut node = SgfNode::new(PropertyMap::new());
    node.set_point("B", "dd".to_string());
    assert_eq!(node.get_point("B").unwrap(), "dd");
    node.set_number("HA", -12);
    assert_eq!(node.get_number("HA").unwrap(), -12);
    assert_eq!(node.get_point("HA").unwrap(), "-12");
    node.set_points("AB", vec!["aa".to_string(), "bb".to_string()]);
    assert_eq!(node.get_points("AB").unwrap(), vec!["aa".to_string(), "bb".to_string()]);
    node.set_color("PL", 'W');
    assert_eq!(node.get_color("PL").unwrap(), 'W');
    assert_eq!(node.get_point("PL").unwrap(), "W");
    node.set_double("DM", '2');
    assert_eq!(node.get_double("DM").unwrap(), '2');
    node.set_text("C", "a]b\\c:d\ne".to_string());
    assert_eq!(node.get_point("C").unwrap(), "a\\]b\\\\c\\:d\ne");
    assert_eq!(node.get_text("C").unwrap(), "a]b\\c:d\ne");
    node.set_simple_text("N", "a]b:c".to_string());
    assert_eq!(node.get_point("N").unwrap(), "a\\]b\\:c");
    assert_eq!(node.get_simple_text("N").unwrap(), "a]b:c");
    assert_eq!(
        node.to_string(),
        ";B[dd]HA[-12]AB[aa][bb]PL[W]DM[2]C[a\\]b\\\\c\\:d\ne]N[a\\]b\\:c]"
    );
}

#[test]
fn pair_setters_join_with_a_colon() {
    let mut node = SgfNode::new(PropertyMap::new());
    node.set_point_point("AR", ("aa".to_string(), "bb".to_string()));
    assert_eq!(node.get_point("AR").unwrap(), "aa:bb");
    assert_eq!(node.get_point_point("AR").unwrap(), ("aa".to_string(), "bb".to_string()));
    node.set_point_simple_text("LB", ("cc".to_string(), "a:b".to_string()));
    assert_eq!(node.get_point("LB").unwrap(), "cc:a\\:b");
    assert_eq!(node.get_point_simple_text("LB").unwrap(), ("cc".to_string(), "a:b".to_string()));
    node.set_simple_text_simple_text("AP", ("my]app".to_string(), "1:0".to_string()));
    assert_eq!(node.get_point("AP").unwrap(), "my\\]app:1\\:0");
    node.set_number_number("SZ", (19, -13));
    assert_eq!(node.get_point("SZ").unwrap(), "19:-13");
    assert_eq!(node.get_number_number("SZ").unwrap(), (19, -13));
    node.set_number_simple_text("FG", (257, "Figure: 1".to_string()));
    assert_eq!(node.get_point("FG").unwrap(), "257:Figure\\: 1");
    assert_eq!(node.get_number_simple_text("FG").unwrap(), (257, "Figure: 1".to_string()));
}

#[test]
fn setters_replace_and_can_be_chained() {
    let mut node = root("(;A[1]B[2]C[3])");
    node.set_point("B", "x".to_string()).set_number("D", 4).set_point("A", "y".to_string());
    assert_eq!(node.to_string(), ";C[3]B[x]D[4]A[y]");
    node.set_property("C", vec!["p".to_string(), "q".to_string()]);
    assert_eq!(node.to_string(), ";B[x]D[4]A[y]C[p][q]");
}

#[test]
fn setters_leave_the_children_alone() {
    let mut node = root("(;A[1];B[2])");
    node.set_point("A", "x".to_string());
    assert_eq!(node.to_string(), ";A[x];B[2]");
}

#[test]
fn split_compose_splits_at_the_first_colon() {
    assert_eq!(split_compose("a:b"), ("a".to_string(), Some("b".to_string())));
    assert_eq!(split_compose("a:b:c"), ("a".to_string(), Some("b:c".to_string())));
    assert_eq!(split_compose("ab"), ("ab".to_string(), None));
    assert_eq!(split_compose(""), ("".to_string(), None));
    assert_eq!(split_compose(":"), ("".to_string(), Some("".to_string())));
    assert_eq!(split_compose("日本:語"), ("日本".to_string(), Some("語".to_string())));
    assert_eq!(split_compose("a\\:b"), ("a\\".to_string(), Some("b".to_string())));
}

#[test]
fn small_helpers_build_values() {
    assert_eq!(join_compose("a", "b"), "a:b");
    assert_eq!(join_compose("", ""), ":");
    assert_eq!(char_to_string('語'), "語");
    assert_eq!(one_value("x".to_string()), vec!["x".to_string()]);
    let list = vec!["a".to_string(), "".to_string(), "c".to_string()];
    assert_eq!(clone_strings(&list), list);
    assert_eq!(clone_strings(&Vec::new()), Vec::<String>::new());
}
