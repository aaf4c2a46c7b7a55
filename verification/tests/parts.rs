use rpn_calc::operator::Operator;
use rpn_calc::stack::{apply2, RpnError};
use rpn_calc::token::tokenize;
use rpn_calc::whitespace::is_space;

#[test]
fn tokenize_cuts_at_runs_of_white_space() {
    assert_eq!(tokenize("6.1 5.2 4.3 * +"), vec!["6.1", "5.2", "4.3", "*", "+"]);
    assert_eq!(tokenize("  a   bc\td\n"), vec!["a", "bc", "d"]);
    assert_eq!(tokenize("one"), vec!["one"]);
    assert_eq!(tokenize("x "), vec!["x"]);
    assert_eq!(tokenize(" x"), vec!["x"]);
}

#[test]
fn tokenize_of_blank_input_is_empty() {
    assert!(tokenize("").is_empty());
    assert!(tokenize(" ").is_empty());
    assert!(tokenize(" \t\r\n\u{b}\u{c}\u{85}\u{a0}\u{1680}\u{2028}\u{2029}\u{202f}\u{205f}\u{3000}").is_empty());
}

#[test]
fn tokenize_keeps_characters_of_several_bytes() {
    assert_eq!(tokenize("é\u{3000}日本 語"), vec!["é", "日本", "語"]);
    assert_eq!(tokenize("1\u{2000}2\u{200a}+"), vec!["1", "2", "+"]);
    assert_eq!(tokenize("a\u{200b}b"), vec!["a\u{200b}b"]);
}

#[test]
fn tokenize_agrees_with_the_standard_splitter() {
    let inputs = [
        "",
        " ",
        "6.1 5.2 4.3 * + 3.4 2.5 / 1.6 * -",
        "  lead",
        "trail  ",
        "a\tb\nc\rd",
        "\u{85}x\u{a0}y\u{1680}z",
        "no-space",
        " é  ü ",
    ];
    for s in inputs {
        let want: Vec<&str> = s.split_whitespace().collect();
        assert_eq!(tokenize(s), want);
    }
}

#[test]
fn is_space_agrees_with_the_standard_classification() {
    for n in 0..=0x10FFFFu32 {
        if let Some(c) = char::from_u32(n) {
            assert_eq!(is_space(c), c.is_whitespace());
        }
    }
}

#[test]
fn is_space_on_named_characters() {
    assert!(is_space(' '));
    assert!(is_space('\t'));
    assert!(is_space('\n'));
    assert!(is_space('\u{3000}'));
    assert!(!is_space('0'));
    assert!(!is_space('+'));
    assert!(!is_space('\u{200b}'));
    assert!(!is_space('\u{180e}'));
}

#[test]
fn only_the_four_symbols_are_operators() {
    assert_eq!(Operator::from_token("+"), Some(Operator::Add));
    assert_eq!(Operator::from_token("-"), Some(Operator::Subtract));
    assert_eq!(Operator::from_token("*"), Some(Operator::Multiply));
    assert_eq!(Operator::from_token("/"), Some(Operator::Divide));
    assert_eq!(Operator::from_token("%"), None);
    assert_eq!(Operator::from_token(""), None);
    assert_eq!(Operator::from_token("++"), None);
    assert_eq!(Operator::from_token("+ "), None);
    assert_eq!(Operator::from_token("x"), None);
    assert_eq!(Operator::from_token("÷"), None);
}

#[test]
fn apply2_passes_the_top_as_right_operand() {
    let mut stack = vec![1.0, 10.0, 4.0];
    assert_eq!(apply2(&mut stack, |x: f64, y: f64| x / y), Ok(()));
    assert_eq!(stack, vec![1.0, 2.5]);
    assert_eq!(apply2(&mut stack, |x: f64, y: f64| x - y), Ok(()));
    assert_eq!(stack, vec![-1.5]);
}

#[test]
fn apply2_shrinks_the_stack_by_one() {
    let mut stack = vec![1u32, 2, 3, 4];
    assert_eq!(apply2(&mut stack, |x: u32, y: u32| 10 * x + y), Ok(()));
    assert_eq!(stack, vec![1, 2, 34]);
}

#[test]
fn apply2_on_a_short_stack_changes_nothing() {
    let mut one = vec![5.0];
    assert_eq!(apply2(&mut one, |x: f64, y: f64| x + y), Err(RpnError::StackUnderflow));
    assert_eq!(one, vec![5.0]);
    let mut none: Vec<f64> = Vec::new();
    assert_eq!(apply2(&mut none, |x: f64, y: f64| x + y), Err(RpnError::StackUnderflow));
    assert!(none.is_empty());
}
