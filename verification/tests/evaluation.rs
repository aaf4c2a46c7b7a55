use rpn_calc::{rpn, Operator, RpnError};

fn number(token: &str) -> Option<f64> {
    token.parse::<f64>().ok()
}

fn arithmetic(op: Operator, x: f64, y: f64) -> f64 {
    match op {
        Operator::Add => x + y,
        Operator::Subtract => x - y,
        Operator::Multiply => x * y,
        Operator::Divide => x / y,
    }
}

fn eval(exp: &str) -> Result<f64, RpnError> {
    rpn(exp, number, arithmetic)
}

#[test]
fn long_expression_rounds_to_four_places() {
    let v = eval("6.1 5.2 4.3 * + 3.4 2.5 / 1.6 * -").unwrap();
    assert_eq!(format!("{:.4}", v), "26.2840");
    assert_eq!(v.to_bits(), (6.1 + 5.2 * 4.3 - (3.4 / 2.5) * 1.6_f64).to_bits());
}

#[test]
fn single_literal_is_its_value() {
    assert_eq!(eval("42"), Ok(42.0));
}

#[test]
fn subtraction_takes_the_lower_operand_first() {
    assert_eq!(eval("5 3 -"), Ok(2.0));
    assert_eq!(eval("3 5 -"), Ok(-2.0));
}

#[test]
fn division_takes_the_lower_operand_first() {
    assert_eq!(eval("10 4 /"), Ok(2.5));
    assert_eq!(eval("4 10 /"), Ok(0.4));
}

#[test]
fn addition_and_multiplication() {
    assert_eq!(eval("1.5 2.25 +"), Ok(3.75));
    assert_eq!(eval("1.5 4 *"), Ok(6.0));
    assert_eq!(eval("1 2 + 3 4 + *"), Ok(21.0));
}

#[test]
fn operator_on_empty_stack_underflows() {
    assert_eq!(eval("+"), Err(RpnError::StackUnderflow));
    assert_eq!(eval("-"), Err(RpnError::StackUnderflow));
    assert_eq!(eval("*"), Err(RpnError::StackUnderflow));
    assert_eq!(eval("/"), Err(RpnError::StackUnderflow));
}

#[test]
fn operator_on_one_operand_underflows() {
    assert_eq!(eval("5 +"), Err(RpnError::StackUnderflow));
    assert_eq!(eval("1 2 + *"), Err(RpnError::StackUnderflow));
}

#[test]
fn leftover_operands_are_an_error() {
    assert_eq!(eval("1 2"), Err(RpnError::FinalStack(2)));
    assert_eq!(eval("1 2 3 +"), Err(RpnError::FinalStack(2)));
    assert_eq!(eval("1 2 3 4"), Err(RpnError::FinalStack(4)));
}

#[test]
fn empty_input_is_an_error() {
    assert_eq!(eval(""), Err(RpnError::FinalStack(0)));
    assert_eq!(eval("   \t\n"), Err(RpnError::FinalStack(0)));
}

#[test]
fn unknown_token_is_named() {
    assert_eq!(eval("3 4 %"), Err(RpnError::InvalidToken("%".to_string())));
    assert_eq!(eval("3 abc +"), Err(RpnError::InvalidToken("abc".to_string())));
    assert_eq!(eval("++"), Err(RpnError::InvalidToken("++".to_string())));
    assert_eq!(eval("1 2+"), Err(RpnError::InvalidToken("2+".to_string())));
}

#[test]
fn first_failing_token_decides() {
    assert_eq!(eval("+ %"), Err(RpnError::StackUnderflow));
    assert_eq!(eval("% +"), Err(RpnError::InvalidToken("%".to_string())));
    assert_eq!(eval("1 % 2 3"), Err(RpnError::InvalidToken("%".to_string())));
}

#[test]
fn white_space_of_any_kind_and_length_separates() {
    let plain = eval("6.1 5.2 4.3 * +").unwrap();
    assert_eq!(eval("  6.1   5.2 4.3  *  +  ").unwrap().to_bits(), plain.to_bits());
    assert_eq!(eval("\t6.1\n5.2\r\n4.3\u{3000}*\u{a0}+\u{2003}").unwrap().to_bits(), plain.to_bits());
    assert_eq!(eval(" 5  3   - "), Ok(2.0));
}

#[test]
fn literals_in_every_accepted_form() {
    assert_eq!(eval("1e3"), Ok(1000.0));
    assert_eq!(eval("-2.5"), Ok(-2.5));
    assert_eq!(eval("+3"), Ok(3.0));
    assert_eq!(eval(".5 5. +"), Ok(5.5));
    assert_eq!(eval("-1 -2 -"), Ok(1.0));
    assert_eq!(eval("inf"), Ok(f64::INFINITY));
    assert!(eval("NaN").unwrap().is_nan());
}

#[test]
fn division_by_zero_is_not_an_error() {
    assert_eq!(eval("1 0 /"), Ok(f64::INFINITY));
    assert_eq!(eval("-1 0 /"), Ok(f64::NEG_INFINITY));
    assert!(eval("0 0 /").unwrap().is_nan());
}

#[test]
fn repeated_evaluation_gives_the_same_bits() {
    let exp = "6.1 5.2 4.3 * + 3.4 2.5 / 1.6 * -";
    let first = eval(exp).unwrap().to_bits();
    for _ in 0..10 {
        assert_eq!(eval(exp).unwrap().to_bits(), first);
    }
    assert_eq!(eval("1 +"), eval("1 +"));
}

#[test]
fn a_token_is_offered_to_the_reader_first() {
    let reads_plus = |t: &str| if t == "+" { Some(7i64) } else { t.parse::<i64>().ok() };
    let ints = |op: Operator, x: i64, y: i64| match op {
        Operator::Add => x + y,
        Operator::Subtract => x - y,
        Operator::Multiply => x * y,
        Operator::Divide => x / y,
    };
    assert_eq!(rpn("+", reads_plus, ints), Ok(7));
    assert_eq!(rpn("1 + -", reads_plus, ints), Ok(-6));
    assert_eq!(rpn("7 2 /", reads_plus, ints), Ok(3));
    assert_eq!(rpn("1.5", reads_plus, ints), Err(RpnError::InvalidToken("1.5".to_string())));
}
