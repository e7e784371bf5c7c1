use rpn_interpreter_lang::{LangState, LangError};

#[test]
fn defining_then_using_a_word() {
    let mut s = LangState::new(8);
    assert_eq!(s.solve(": inc 1 + ;"), Ok(String::from("defined")));
    assert_eq!(s.solve("5 inc ."), Ok(String::from("6 ")));
    assert_eq!(s.dump_stack(), Vec::<i32>::new());
}

#[test]
fn preseeded_word_expands_recursively() {
    let mut s = LangState::new(8);
    s.add_word(String::from("squared"), String::from("dup *"));
    assert_eq!(s.solve("4"), Ok(String::new()));
    assert_eq!(s.solve("squared"), Ok(String::new()));
    assert_eq!(s.dump_stack(), vec![16]);
}

#[test]
fn undefined_name_is_reported() {
    let mut s = LangState::new(8);
    assert_eq!(s.solve("undefinedword"), Err(LangError::NameNotFound));
}

#[test]
fn definition_without_a_name_is_malformed() {
    let mut s = LangState::new(8);
    assert_eq!(s.solve(": ;"), Err(LangError::BadWordDefinitionForm));
    assert_eq!(s.solve(":"), Err(LangError::BadWordDefinitionForm));
}

#[test]
fn definition_without_terminator_is_still_committed() {
    let mut s = LangState::new(8);
    assert_eq!(s.solve(": twice 2 *"), Ok(String::from("defined")));
    assert_eq!(s.solve("21 twice"), Ok(String::new()));
    assert_eq!(s.dump_stack(), vec![42]);
}

#[test]
fn redefining_a_word_overwrites_it() {
    let mut s = LangState::new(8);
    assert_eq!(s.solve(": w 1 ;"), Ok(String::from("defined")));
    assert_eq!(s.solve(": w 2 ;"), Ok(String::from("defined")));
    assert_eq!(s.solve("w"), Ok(String::new()));
    assert_eq!(s.dump_stack(), vec![2]);
}

#[test]
fn tokens_after_the_terminator_still_run() {
    let mut s = LangState::new(8);
    assert_eq!(s.solve(": x 1 ; 2 ."), Ok(String::from("defined2 ")));
    assert_eq!(s.dump_stack(), Vec::<i32>::new());
}

#[test]
fn expansion_replaces_output_gathered_so_far() {
    let mut s = LangState::new(8);
    s.add_word(String::from("two"), String::from("2"));
    assert_eq!(s.solve("1 . two"), Ok(String::new()));
    assert_eq!(s.dump_stack(), vec![2]);
}

#[test]
fn builtin_keywords_shadow_dictionary_entries() {
    let mut s = LangState::new(8);
    s.add_word(String::from("dup"), String::from("1"));
    assert_eq!(s.solve("5 dup"), Ok(String::new()));
    assert_eq!(s.dump_stack(), vec![5, 5]);
}

#[test]
fn dictionary_lookup_is_case_sensitive() {
    let mut s = LangState::new(8);
    s.add_word(String::from("Inc"), String::from("1 +"));
    assert_eq!(s.solve("5 Inc"), Ok(String::new()));
    assert_eq!(s.dump_stack(), vec![6]);
    assert_eq!(s.solve("INC"), Err(LangError::NameNotFound));
}

#[test]
fn words_can_chain_through_other_words() {
    let mut s = LangState::new(8);
    assert_eq!(s.solve(": inc 1 + ;"), Ok(String::from("defined")));
    assert_eq!(s.solve(": inc2 inc inc ;"), Ok(String::from("defined")));
    assert_eq!(s.solve("5 inc2"), Ok(String::new()));
    assert_eq!(s.dump_stack(), vec![7]);
}

#[test]
fn self_referential_word_stops_at_the_depth_bound() {
    let mut s = LangState::new(8);
    s.add_word(String::from("omega"), String::from("omega"));
    assert_eq!(s.solve("omega"), Err(LangError::ExpansionTooDeep));
}

#[test]
fn error_inside_an_expanded_body_propagates() {
    let mut s = LangState::new(8);
    s.add_word(String::from("broken"), String::from("nosuchthing"));
    assert_eq!(s.solve("broken"), Err(LangError::NameNotFound));
}

#[test]
fn defining_then_hitting_an_unknown_name_in_the_same_line() {
    let mut s = LangState::new(8);
    assert_eq!(s.solve(": inc 1 + ; undefinedword"), Err(LangError::NameNotFound));
    // The definition before the failing token was still committed.
    assert_eq!(s.solve("5 inc"), Ok(String::new()));
    assert_eq!(s.dump_stack(), vec![6]);
}

#[test]
fn two_definitions_on_one_line() {
    let mut s = LangState::new(8);
    assert_eq!(s.solve(": one 1 ; : two 2 ;"), Ok(String::from("defined")));
    assert_eq!(s.solve("one two"), Ok(String::new()));
    assert_eq!(s.dump_stack(), vec![1, 2]);
}

#[test]
fn repeated_spaces_inside_a_definition_are_skipped() {
    let mut s = LangState::new(8);
    assert_eq!(s.solve(":  pad  7  ;"), Ok(String::from("defined")));
    assert_eq!(s.solve("pad"), Ok(String::new()));
    assert_eq!(s.dump_stack(), vec![7]);
}

#[test]
fn word_with_an_empty_body_does_nothing() {
    let mut s = LangState::new(8);
    assert_eq!(s.solve(": noop"), Ok(String::from("defined")));
    assert_eq!(s.solve("1 noop"), Ok(String::new()));
    assert_eq!(s.dump_stack(), vec![1]);
}

#[test]
fn semicolon_outside_a_definition_is_unknown() {
    let mut s = LangState::new(8);
    assert_eq!(s.solve(";"), Err(LangError::NameNotFound));
}
