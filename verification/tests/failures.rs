use sgf::failure::{ParseState, RuleResult};
use sgf::parser::{any_char, pos_to_line, slice_eq};
use sgf::{collection, sgf_parse, ParseError, SgfCollection};

fn error_of(input: &str) -> ParseError {
    match sgf_parse(input) {
        Ok(_) => panic!("the input was accepted"),
        Err(e) => e,
    }
}

#[test]
fn empty_input_expects_a_game_tree() {
    let e = error_of("");
    assert_eq!(e.offset, 0);
    assert_eq!(e.line, 1);
    assert_eq!(e.column, 1);
    assert_eq!(e.expected, vec!["[ \t\r\nv]", "("]);
}

#[test]
fn duplicated_identifier_is_reported_behind_the_node() {
    let e = error_of("(;CA[UTF-8]CA[4])");
    assert_eq!(e.offset, 16);
    assert_eq!(e.line, 1);
    assert_eq!(e.column, 17);
    assert_eq!(e.expected, vec!["[ \t\r\nv]", "[", "[A-Z]", "duplicated properties"]);
}

#[test]
fn duplicated_identifier_fails_through_every_entry_point() {
    assert!(collection("(;CA[UTF-8]CA[4])").is_err());
    assert!(SgfCollection::from_sgf("(;CA[UTF-8]CA[4])").is_err());
    assert!(sgf_parse("(;CA[a];CA[b])").is_ok());
}

#[test]
fn unclosed_game_tree_lists_every_way_on() {
    let e = error_of("(;A[b]");
    assert_eq!(e.offset, 6);
    assert_eq!(e.line, 1);
    assert_eq!(e.column, 7);
    assert_eq!(e.expected, vec!["[ \t\r\nv]", "[", "[A-Z]", ";", "(", ")"]);
}

#[test]
fn unclosed_value_expects_its_end() {
    let e = error_of("(;A[b");
    assert_eq!(e.offset, 5);
    assert_eq!(e.expected, vec!["\\]", "[^]]", "]"]);
}

#[test]
fn blanks_behind_the_last_game_tree_are_not_consumed() {
    let e = error_of("(;A[b])\n");
    assert_eq!(e.offset, 8);
    assert_eq!(e.line, 2);
    assert_eq!(e.column, 1);
    assert_eq!(e.expected, vec!["[ \t\r\nv]", "("]);
}

#[test]
fn text_behind_the_collection_is_an_error() {
    let e = error_of("(;A[b])x");
    assert_eq!(e.offset, 7);
    assert_eq!(e.expected, vec!["[ \t\r\nv]", "("]);
}

#[test]
fn game_tree_without_a_node_is_an_error() {
    let e = error_of("()");
    assert_eq!(e.offset, 1);
    assert_eq!(e.expected, vec!["[ \t\r\nv]", ";"]);
}

#[test]
fn identifier_without_a_value_is_an_error() {
    let e = error_of("(;AB)");
    assert_eq!(e.offset, 4);
    assert_eq!(e.expected, vec!["[A-Z]", "[ \t\r\nv]", "["]);
}

#[test]
fn lower_case_identifier_is_an_error() {
    assert!(sgf_parse("(;ab[cd])").is_err());
}

#[test]
fn error_position_counts_lines_and_characters() {
    let e = error_of("(;C[日本]\n ;C[語]\n  x)");
    // The furthest failure is at the `x` of the third line.
    assert_eq!(e.line, 3);
    assert_eq!(e.column, 3);
    assert_eq!(e.offset, "(;C[日本]\n ;C[語]\n  ".len());
}

#[test]
fn pos_to_line_counts_from_one() {
    assert_eq!(pos_to_line("", 0), (1, 1));
    assert_eq!(pos_to_line("ab\ncd", 0), (1, 1));
    assert_eq!(pos_to_line("ab\ncd", 2), (1, 3));
    assert_eq!(pos_to_line("ab\ncd", 3), (2, 1));
    assert_eq!(pos_to_line("ab\ncd", 4), (2, 2));
    assert_eq!(pos_to_line("ab\ncd", 5), (2, 3));
    assert_eq!(pos_to_line("\n\n\n", 3), (4, 1));
}

#[test]
fn pos_to_line_counts_characters_not_bytes() {
    // "é" and "ü" take two bytes each.
    assert_eq!(pos_to_line("é\nü x", 5), (2, 2));
    assert_eq!(pos_to_line("日本語", 9), (1, 4));
    assert_eq!(pos_to_line("a\r\nb", 3), (2, 1));
}

#[test]
fn a_failure_further_on_replaces_what_was_recorded() {
    let mut state = ParseState::new();
    assert_eq!(state.max_err_pos(), 0);
    assert!(matches!(state.mark_failure(3, "a"), RuleResult::Failed));
    assert!(matches!(state.mark_failure(3, "b"), RuleResult::Failed));
    assert_eq!(state.max_err_pos(), 3);
    state.mark_failure(5, "c");
    assert_eq!(state.max_err_pos(), 5);
    assert_eq!(state.into_expected(), vec!["c"]);
}

#[test]
fn a_failure_at_the_same_position_adds_to_the_record_once() {
    let mut state = ParseState::new();
    state.mark_failure(3, "a");
    state.mark_failure(3, "b");
    state.mark_failure(3, "a");
    assert_eq!(state.max_err_pos(), 3);
    assert_eq!(state.into_expected(), vec!["a", "b"]);
}

#[test]
fn a_failure_before_the_furthest_is_dropped() {
    let mut state = ParseState::new();
    state.mark_failure(3, "a");
    state.mark_failure(2, "b");
    state.mark_failure(0, "c");
    assert_eq!(state.max_err_pos(), 3);
    assert_eq!(state.into_expected(), vec!["a"]);
}

#[test]
fn a_failure_at_the_start_is_recorded() {
    let mut state = ParseState::new();
    state.mark_failure(0, "a");
    assert_eq!(state.max_err_pos(), 0);
    assert_eq!(state.into_expected(), vec!["a"]);
}

#[test]
fn slice_eq_matches_the_literal_at_the_position() {
    let mut state = ParseState::new();
    assert!(matches!(slice_eq("abc", &mut state, 1, "bc"), RuleResult::Matched(3, ())));
    assert!(matches!(slice_eq("abc", &mut state, 0, ""), RuleResult::Matched(0, ())));
    assert!(matches!(slice_eq("abc", &mut state, 3, ""), RuleResult::Matched(3, ())));
    assert_eq!(state.into_expected(), Vec::<&'static str>::new());
}

#[test]
fn slice_eq_records_the_literal_where_it_fails() {
    let mut state = ParseState::new();
    assert!(matches!(slice_eq("abc", &mut state, 1, "bd"), RuleResult::Failed));
    assert!(matches!(slice_eq("abc", &mut state, 2, "cd"), RuleResult::Failed));
    assert!(matches!(slice_eq("abc", &mut state, 4, "a"), RuleResult::Failed));
    assert_eq!(state.max_err_pos(), 4);
    assert_eq!(state.into_expected(), vec!["a"]);
}

#[test]
fn any_char_steps_over_one_character() {
    let mut state = ParseState::new();
    assert!(matches!(any_char("aé日😀", &mut state, 0), RuleResult::Matched(1, ())));
    assert!(matches!(any_char("aé日😀", &mut state, 1), RuleResult::Matched(3, ())));
    assert!(matches!(any_char("aé日😀", &mut state, 3), RuleResult::Matched(6, ())));
    assert!(matches!(any_char("aé日😀", &mut state, 6), RuleResult::Matched(10, ())));
    assert!(matches!(any_char("aé日😀", &mut state, 10), RuleResult::Failed));
    assert_eq!(state.max_err_pos(), 10);
    assert_eq!(state.into_expected(), vec!["<character>"]);
}
