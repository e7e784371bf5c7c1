use rpn_interpreter_lang::{LangState, LangError};

#[test]
fn addition_leaves_sum_on_top() {
    let mut s = LangState::new(8);
    assert_eq!(s.solve("1 2 +"), Ok(String::new()));
    assert_eq!(s.dump_stack(), vec![3]);
}

#[test]
fn subtraction_first_popped_is_subtrahend() {
    let mut s = LangState::new(8);
    assert_eq!(s.solve("5 3 -"), Ok(String::new()));
    assert_eq!(s.dump_stack(), vec![2]);
}

#[test]
fn multiplication_leaves_product() {
    let mut s = LangState::new(8);
    assert_eq!(s.solve("4 6 *"), Ok(String::new()));
    assert_eq!(s.dump_stack(), vec![24]);
}

#[test]
fn division_truncates_toward_zero() {
    let mut s = LangState::new(8);
    assert_eq!(s.solve("7 2 /"), Ok(String::new()));
    assert_eq!(s.dump_stack(), vec![3]);
    s.solve("clear").unwrap();
    assert_eq!(s.solve("-7 2 /"), Ok(String::new()));
    assert_eq!(s.dump_stack(), vec![-3]);
}

#[test]
fn division_by_zero_is_a_typed_error() {
    let mut s = LangState::new(8);
    assert_eq!(s.solve("1 0 /"), Err(LangError::DivisionByZero));
    assert_eq!(s.dump_stack(), Vec::<i32>::new());
}

#[test]
fn addition_wraps_at_the_integer_boundary() {
    let mut s = LangState::new(8);
    assert_eq!(s.solve("2147483647 1 +"), Ok(String::new()));
    assert_eq!(s.dump_stack(), vec![i32::MIN]);
}

#[test]
fn min_divided_by_minus_one_wraps() {
    let mut s = LangState::new(8);
    assert_eq!(s.solve("-2147483648 -1 /"), Ok(String::new()));
    assert_eq!(s.dump_stack(), vec![i32::MIN]);
}

#[test]
fn dup_copies_the_top() {
    let mut s = LangState::new(8);
    assert_eq!(s.solve("1 2 dup"), Ok(String::new()));
    assert_eq!(s.dump_stack(), vec![1, 2, 2]);
}

#[test]
fn swap_reverses_the_top_two() {
    let mut s = LangState::new(8);
    assert_eq!(s.solve("1 2 swap"), Ok(String::new()));
    assert_eq!(s.dump_stack(), vec![2, 1]);
}

#[test]
fn keywords_match_case_insensitively() {
    let mut s = LangState::new(8);
    assert_eq!(s.solve("3 DUP"), Ok(String::new()));
    assert_eq!(s.dump_stack(), vec![3, 3]);
    assert_eq!(s.solve("SwAp"), Ok(String::new()));
    assert_eq!(s.solve("CLEAR"), Ok(String::new()));
    assert_eq!(s.dump_stack(), Vec::<i32>::new());
}

#[test]
fn clear_empties_any_stack() {
    let mut s = LangState::new(8);
    assert_eq!(s.solve("1 2 3 clear"), Ok(String::new()));
    assert_eq!(s.dump_stack(), Vec::<i32>::new());
}

#[test]
fn comparisons_push_exactly_zero_or_one() {
    let mut s = LangState::new(8);
    assert_eq!(s.solve("1 2 >"), Ok(String::new()));
    assert_eq!(s.dump_stack(), vec![0]);
    s.solve("clear").unwrap();
    assert_eq!(s.solve("1 2 <"), Ok(String::new()));
    assert_eq!(s.dump_stack(), vec![1]);
    s.solve("clear").unwrap();
    assert_eq!(s.solve("2 2 ="), Ok(String::new()));
    assert_eq!(s.dump_stack(), vec![1]);
    s.solve("clear").unwrap();
    assert_eq!(s.solve("1 2 ="), Ok(String::new()));
    assert_eq!(s.dump_stack(), vec![0]);
}

#[test]
fn empty_stack_underflows_and_stays_empty() {
    for token in ["+", "-", "*", "/", ".", ">", "<", "=", "dup", "swap"] {
        let mut s = LangState::new(8);
        assert_eq!(s.solve(token), Err(LangError::StackUnderflow));
        assert_eq!(s.dump_stack(), Vec::<i32>::new());
    }
}

#[test]
fn one_value_underflow_keeps_the_pop_already_made() {
    let mut s = LangState::new(8);
    assert_eq!(s.solve("5 +"), Err(LangError::StackUnderflow));
    assert_eq!(s.dump_stack(), Vec::<i32>::new());
}

#[test]
fn print_pops_and_appends_text_with_a_space() {
    let mut s = LangState::new(8);
    assert_eq!(s.solve("42 ."), Ok(String::from("42 ")));
    assert_eq!(s.dump_stack(), Vec::<i32>::new());
}

#[test]
fn print_round_trips_canonical_literals() {
    let mut s = LangState::new(8);
    assert_eq!(s.solve("-17 ."), Ok(String::from("-17 ")));
    assert_eq!(s.solve("0 ."), Ok(String::from("0 ")));
    assert_eq!(s.solve("-2147483648 ."), Ok(String::from("-2147483648 ")));
    assert_eq!(s.solve("2147483647 ."), Ok(String::from("2147483647 ")));
}

#[test]
fn several_prints_accumulate_in_order() {
    let mut s = LangState::new(8);
    assert_eq!(s.solve("1 2 3 . . ."), Ok(String::from("3 2 1 ")));
}

#[test]
fn literal_classification_happens_before_anything_else() {
    let mut s = LangState::new(8);
    assert_eq!(s.solve("007 +5"), Ok(String::new()));
    assert_eq!(s.dump_stack(), vec![7, 5]);
}

#[test]
fn out_of_range_number_is_an_unknown_name() {
    let mut s = LangState::new(8);
    assert_eq!(s.solve("2147483648"), Err(LangError::NameNotFound));
}

#[test]
fn empty_and_blank_lines_do_nothing() {
    let mut s = LangState::new(8);
    assert_eq!(s.solve(""), Ok(String::new()));
    assert_eq!(s.solve("   "), Ok(String::new()));
    assert_eq!(s.dump_stack(), Vec::<i32>::new());
    assert_eq!(s.solve("1   2    +"), Ok(String::new()));
    assert_eq!(s.dump_stack(), vec![3]);
}

#[test]
fn bye_raises_the_terminate_signal() {
    let mut s = LangState::new(8);
    assert_eq!(s.solve("bye"), Err(LangError::TerminateRequested));
    assert_eq!(s.solve("BYE"), Err(LangError::TerminateRequested));
}
