use fib::error::SequenceError;
use fib::expression::{compile, Expression, Token};
use ibig::IBig;
use std::collections::VecDeque;

fn window(xs: &[i64]) -> VecDeque<IBig> {
    xs.iter().map(|x| IBig::from(*x)).collect()
}

fn eval(text: &str, xs: &[i64]) -> Result<IBig, SequenceError> {
    match compile(text) {
        Ok(e) => e.evaluate(&window(xs)),
        Err(e) => Err(e),
    }
}

fn kinds(e: &Expression) -> Vec<String> {
    e.tokens
        .iter()
        .map(|t| match t {
            Token::Add => "+".to_string(),
            Token::Sub => "-".to_string(),
            Token::Mul => "*".to_string(),
            Token::Pow => "**".to_string(),
            Token::Term(i) => format!("term {}", i),
            Token::Literal(v) => format!("literal {}", v),
        })
        .collect()
}

#[test]
fn compile_splits_at_white_space() {
    let e = compile("  a\tb +\n 12 **  ").unwrap();
    assert_eq!(kinds(&e), vec!["term 0", "term 1", "+", "literal 12", "**"]);
}

#[test]
fn compile_splits_at_unicode_white_space() {
    let e = compile("a\u{a0}b\u{2003}+\u{3000}c\u{85}*").unwrap();
    assert_eq!(kinds(&e), vec!["term 0", "term 1", "+", "term 2", "*"]);
}

#[test]
fn compile_of_nothing_is_empty() {
    assert_eq!(compile("").unwrap().tokens.len(), 0);
    assert_eq!(compile(" \t ").unwrap().tokens.len(), 0);
}

#[test]
fn compile_reads_signed_literals() {
    let e = compile("-5 +7 007 -0 123456789012345678901234567890").unwrap();
    assert_eq!(
        kinds(&e),
        vec![
            "literal -5",
            "literal 7",
            "literal 7",
            "literal 0",
            "literal 123456789012345678901234567890"
        ]
    );
}

#[test]
fn compile_reads_every_letter() {
    let e = compile("a z m").unwrap();
    assert_eq!(kinds(&e), vec!["term 0", "term 25", "term 12"]);
}

#[test]
fn compile_accepts_letters_beyond_any_window() {
    assert!(compile("x y +").is_ok());
}

#[test]
fn compile_refuses_unknown_words() {
    for text in [
        "foo", "A", "ab", "1.5", "1e3", "--1", "+-1", "++", "***", "/", "a b &", "0x10", "1_000",
        "é", "١٢",
    ] {
        assert!(
            matches!(compile(text), Err(SequenceError::MalformedExpression)),
            "{}",
            text
        );
    }
}

#[test]
fn letter_out_of_range_fails_at_first_evaluation() {
    let e = compile("x y +").unwrap();
    assert_eq!(
        e.evaluate(&window(&[1, 1])),
        Err(SequenceError::MalformedExpression)
    );
}

#[test]
fn letter_just_out_of_range_fails() {
    assert_eq!(eval("c", &[1, 2]), Err(SequenceError::MalformedExpression));
    assert_eq!(eval("b", &[1, 2]), Ok(IBig::from(2)));
}

#[test]
fn letter_a_is_the_oldest_term() {
    assert_eq!(eval("a", &[10, 20, 30]), Ok(IBig::from(10)));
    assert_eq!(eval("c", &[10, 20, 30]), Ok(IBig::from(30)));
}

#[test]
fn operators_take_the_lower_value_as_left_operand() {
    assert_eq!(eval("7 3 -", &[]), Ok(IBig::from(4)));
    assert_eq!(eval("3 7 -", &[]), Ok(IBig::from(-4)));
    assert_eq!(eval("a b -", &[10, 4]), Ok(IBig::from(6)));
    assert_eq!(eval("7 3 +", &[]), Ok(IBig::from(10)));
    assert_eq!(eval("7 3 *", &[]), Ok(IBig::from(21)));
}

#[test]
fn power_has_the_exponent_on_top() {
    assert_eq!(eval("2 10 **", &[]), Ok(IBig::from(1024)));
    assert_eq!(eval("10 2 **", &[]), Ok(IBig::from(100)));
    assert_eq!(eval("-3 3 **", &[]), Ok(IBig::from(-27)));
    assert_eq!(eval("-3 2 **", &[]), Ok(IBig::from(9)));
    assert_eq!(eval("5 0 **", &[]), Ok(IBig::from(1)));
    assert_eq!(eval("0 0 **", &[]), Ok(IBig::from(1)));
}

#[test]
fn power_beyond_machine_width_is_exact() {
    let expected: IBig = "1267650600228229401496703205376".parse().unwrap();
    assert_eq!(eval("2 100 **", &[]), Ok(expected));
}

#[test]
fn negative_exponent_is_malformed() {
    assert_eq!(
        eval("2 -1 **", &[]),
        Err(SequenceError::MalformedExpression)
    );
}

#[test]
fn exponent_too_large_for_the_machine_is_malformed() {
    assert_eq!(
        eval("1 340282366920938463463374607431768211456 **", &[]),
        Err(SequenceError::MalformedExpression)
    );
}

#[test]
fn stack_underflow_is_malformed() {
    assert_eq!(eval("+", &[]), Err(SequenceError::MalformedExpression));
    assert_eq!(eval("1 +", &[]), Err(SequenceError::MalformedExpression));
    assert_eq!(eval("1 2 + *", &[]), Err(SequenceError::MalformedExpression));
    assert_eq!(eval("a **", &[3]), Err(SequenceError::MalformedExpression));
}

#[test]
fn leftover_values_are_malformed() {
    assert_eq!(eval("1 2", &[]), Err(SequenceError::MalformedExpression));
    assert_eq!(eval("a b c +", &[1, 2, 3]), Err(SequenceError::MalformedExpression));
}

#[test]
fn empty_formula_has_no_value() {
    assert_eq!(eval("", &[1, 2]), Err(SequenceError::MalformedExpression));
}

#[test]
fn nested_formula() {
    // (a + b) * (c - 2) ** 2
    assert_eq!(
        eval("a b + c 2 - 2 ** *", &[3, 4, 7]),
        Ok(IBig::from(175))
    );
}

#[test]
fn evaluation_leaves_the_window_alone() {
    let e = compile("a b +").unwrap();
    let w = window(&[5, 8]);
    assert_eq!(e.evaluate(&w), Ok(IBig::from(13)));
    assert_eq!(w, window(&[5, 8]));
    assert_eq!(e.evaluate(&w), Ok(IBig::from(13)));
}
