use fib::error::SequenceError;
use fib::expression::compile;
use fib::generator::{generate_sequence, generate_term, Recurrence};
use fib::sequence::{generate, generate_list};
use ibig::IBig;
use std::collections::VecDeque;

fn bigs(xs: &[i64]) -> Vec<IBig> {
    xs.iter().map(|x| IBig::from(*x)).collect()
}

fn window(xs: &[i64]) -> VecDeque<IBig> {
    xs.iter().map(|x| IBig::from(*x)).collect()
}

fn coefficients(coeffs: &[i64], modulus: Option<u64>) -> Recurrence {
    Recurrence::Coefficients {
        coeffs: coeffs.to_vec(),
        modulus,
    }
}

fn formula(text: &str) -> Recurrence {
    Recurrence::Formula(compile(text).unwrap())
}

#[test]
fn formula_reproduces_coefficient_form() {
    let by_formula = formula("a b +");
    let by_coefficients = coefficients(&[1, 1], None);
    for n in 0..=20u128 {
        assert_eq!(
            generate_term(n, bigs(&[1, 1]), 2, &by_formula),
            generate_term(n, bigs(&[1, 1]), 2, &by_coefficients)
        );
    }
    assert_eq!(
        generate_term(20, bigs(&[1, 1]), 2, &by_formula),
        Ok(IBig::from(17711))
    );
    assert_eq!(
        generate_sequence(20, bigs(&[1, 1]), 2, &by_formula),
        Ok(generate_list(20, bigs(&[1, 1]), 2, &[1, 1], None))
    );
}

#[test]
fn formula_with_letter_out_of_range_fails_at_first_step() {
    let rec = formula("x y +");
    assert_eq!(
        generate_term(20, bigs(&[1, 1]), 2, &rec),
        Err(SequenceError::MalformedExpression)
    );
    assert_eq!(
        generate_sequence(1, bigs(&[1, 1]), 2, &rec),
        Err(SequenceError::MalformedExpression)
    );
}

#[test]
fn formula_is_not_run_without_steps() {
    let rec = formula("x y +");
    assert_eq!(generate_term(0, bigs(&[1, 4]), 2, &rec), Ok(IBig::from(4)));
    assert_eq!(
        generate_sequence(0, bigs(&[1, 4]), 2, &rec),
        Ok(bigs(&[1, 4]))
    );
}

#[test]
fn term_without_steps_is_the_last_initial_value() {
    let rec = coefficients(&[1, 1, 1], None);
    assert_eq!(
        generate_term(0, bigs(&[7, 8, 9]), 3, &rec),
        Ok(IBig::from(9))
    );
}

#[test]
fn term_is_the_last_of_the_sequence() {
    let rec = formula("a 2 * b - c 2 ** +");
    for n in 0..12u128 {
        let seq = generate_sequence(n, bigs(&[1, 0, 2]), 3, &rec).unwrap();
        assert_eq!(seq.len(), 3 + n as usize);
        assert_eq!(
            generate_term(n, bigs(&[1, 0, 2]), 3, &rec),
            Ok(seq[seq.len() - 1].clone())
        );
    }
}

#[test]
fn sequence_by_formula() {
    // Each term is the square of the one before, minus the one before that.
    let rec = formula("b 2 ** a -");
    assert_eq!(
        generate_sequence(4, bigs(&[1, 2]), 2, &rec),
        Ok(bigs(&[1, 2, 3, 7, 46, 2109]))
    );
}

#[test]
fn sequence_by_coefficients_matches_generate_list() {
    for m in [None, Some(1u64), Some(13), Some(1_000_000_007)] {
        let rec = coefficients(&[3, -1, 4], m);
        assert_eq!(
            generate_sequence(30, bigs(&[1, -5, 9]), 3, &rec),
            Ok(generate_list(30, bigs(&[1, -5, 9]), 3, &[3, -1, 4], m))
        );
    }
}

#[test]
fn term_by_coefficients_matches_matrix_path() {
    let rec = coefficients(&[2, 0, -3], Some(101));
    for n in 1..40u128 {
        assert_eq!(
            generate_term(n, bigs(&[4, 1, 7]), 3, &rec),
            Ok(generate(3 + n, bigs(&[4, 1, 7]), 3, &[2, 0, -3], Some(101), false))
        );
    }
}

#[test]
fn wrong_number_of_initial_values_is_a_dimension_mismatch() {
    let rec = coefficients(&[1, 1], None);
    assert_eq!(
        generate_term(5, bigs(&[1, 1, 1]), 2, &rec),
        Err(SequenceError::DimensionMismatch)
    );
    assert_eq!(
        generate_sequence(5, bigs(&[1]), 2, &rec),
        Err(SequenceError::DimensionMismatch)
    );
    assert_eq!(
        generate_sequence(0, bigs(&[1]), 2, &rec),
        Err(SequenceError::DimensionMismatch)
    );
}

#[test]
fn order_zero_is_a_dimension_mismatch() {
    let rec = coefficients(&[], None);
    assert_eq!(
        generate_term(5, bigs(&[]), 0, &rec),
        Err(SequenceError::DimensionMismatch)
    );
}

#[test]
fn wrong_number_of_coefficients_is_a_dimension_mismatch() {
    let rec = coefficients(&[1, 1, 1], None);
    assert_eq!(
        generate_term(5, bigs(&[1, 1]), 2, &rec),
        Err(SequenceError::DimensionMismatch)
    );
    assert_eq!(
        rec.evaluate(&window(&[1, 1])),
        Err(SequenceError::DimensionMismatch)
    );
}

#[test]
fn parameters_are_validated_before_any_step() {
    assert_eq!(
        generate_sequence(0, bigs(&[1, 1]), 2, &coefficients(&[1, 1, 1], None)),
        Err(SequenceError::DimensionMismatch)
    );
    assert_eq!(
        generate_term(0, bigs(&[1, 1]), 2, &coefficients(&[1, 1], Some(0))),
        Err(SequenceError::InvalidModulus)
    );
    assert_eq!(
        generate_term(0, bigs(&[1, 1]), 2, &coefficients(&[1], Some(0))),
        Err(SequenceError::DimensionMismatch)
    );
    assert_eq!(
        generate_term(0, bigs(&[1, 1]), 3, &formula("a b +")),
        Err(SequenceError::DimensionMismatch)
    );
}

#[test]
fn validate_names_each_failure() {
    assert_eq!(coefficients(&[1, 1], Some(5)).validate(2, 2), Ok(()));
    assert_eq!(formula("q").validate(2, 2), Ok(()));
    assert_eq!(
        coefficients(&[1, 1], None).validate(3, 2),
        Err(SequenceError::DimensionMismatch)
    );
    assert_eq!(
        coefficients(&[1, 1], None).validate(3, 3),
        Err(SequenceError::DimensionMismatch)
    );
    assert_eq!(
        coefficients(&[1, 1], Some(0)).validate(2, 2),
        Err(SequenceError::InvalidModulus)
    );
    assert_eq!(
        formula("a").validate(0, 0),
        Err(SequenceError::DimensionMismatch)
    );
}

#[test]
fn zero_modulus_is_invalid() {
    let rec = coefficients(&[1, 1], Some(0));
    assert_eq!(
        generate_term(5, bigs(&[1, 1]), 2, &rec),
        Err(SequenceError::InvalidModulus)
    );
    assert_eq!(
        rec.evaluate(&window(&[1, 1])),
        Err(SequenceError::InvalidModulus)
    );
}

#[test]
fn failure_at_a_later_step() {
    // 3, then 2 ** (3 - 2) = 2, then 2 ** (2 - 2) = 1, then 2 ** (1 - 2) has
    // no value.
    let rec = formula("2 a 2 - **");
    assert_eq!(
        generate_sequence(1, bigs(&[3]), 1, &rec),
        Ok(bigs(&[3, 2]))
    );
    assert_eq!(
        generate_sequence(2, bigs(&[3]), 1, &rec),
        Ok(bigs(&[3, 2, 1]))
    );
    assert_eq!(
        generate_sequence(3, bigs(&[3]), 1, &rec),
        Err(SequenceError::MalformedExpression)
    );
    assert_eq!(
        generate_sequence(9, bigs(&[3]), 1, &rec),
        Err(SequenceError::MalformedExpression)
    );
    assert_eq!(generate_term(2, bigs(&[3]), 1, &rec), Ok(IBig::from(1)));
    assert_eq!(
        generate_term(3, bigs(&[3]), 1, &rec),
        Err(SequenceError::MalformedExpression)
    );
}

#[test]
fn evaluate_by_coefficients_reads_the_newest_term_first() {
    let rec = coefficients(&[100, 10, 1], None);
    assert_eq!(rec.evaluate(&window(&[1, 2, 3])), Ok(IBig::from(321)));
}

#[test]
fn evaluate_by_coefficients_reduces() {
    let rec = coefficients(&[-1, -1], Some(10));
    assert_eq!(rec.evaluate(&window(&[3, 4])), Ok(IBig::from(3)));
}
