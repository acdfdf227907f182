use fib::magnitude::leading_digits;
use ibig::IBig;

fn big(text: &str) -> IBig {
    text.parse().unwrap()
}

fn log10(value: &IBig) -> f64 {
    let (lead, shift) = leading_digits(value);
    (lead as f64).log10() + shift as f64
}

#[test]
fn short_numbers_are_kept_whole() {
    assert_eq!(leading_digits(&big("0")), (0, 0));
    assert_eq!(leading_digits(&big("7")), (7, 0));
    assert_eq!(leading_digits(&big("1234567890")), (1234567890, 0));
    assert_eq!(
        leading_digits(&big("123456789012345")),
        (123456789012345, 0)
    );
}

#[test]
fn long_numbers_keep_fifteen_digits() {
    assert_eq!(
        leading_digits(&big("1234567890123456")),
        (123456789012345, 1)
    );
    assert_eq!(
        leading_digits(&big("98765432109876543210")),
        (987654321098765, 5)
    );
}

#[test]
fn negative_numbers_give_one_digit_to_the_sign() {
    assert_eq!(leading_digits(&big("-7")), (7, 0));
    assert_eq!(
        leading_digits(&big("-12345678901234")),
        (12345678901234, 0)
    );
    assert_eq!(
        leading_digits(&big("-123456789012345")),
        (12345678901234, 1)
    );
    assert_eq!(
        leading_digits(&big("-98765432109876543210")),
        (98765432109876, 6)
    );
}

#[test]
fn logarithm_is_exact_for_short_powers_of_ten() {
    assert_eq!(log10(&big("1")), 0.0);
    assert_eq!(log10(&big("1000")), 3.0);
    assert_eq!(log10(&big("100000000000000")), 14.0);
}

#[test]
fn logarithm_of_twenty_digit_power_of_ten() {
    let value = big("10000000000000000000");
    assert_eq!(value.to_string().len(), 20);
    assert!((log10(&value) - 19.0).abs() < 0.01);
}

#[test]
fn logarithm_of_twenty_digit_value_is_within_one_of_digit_count() {
    let value = big("98765432109876543210");
    let l = log10(&value);
    assert!(l >= 19.0 && l < 20.0);
    assert!((l - 19.994604968).abs() < 1e-6);
}

#[test]
fn logarithm_of_a_large_fibonacci_number() {
    // F(1000) has 209 digits and starts 4346655768693745...
    let value = fib::fast_doubling::generate_fib(1000);
    let (lead, shift) = leading_digits(&value);
    assert_eq!(lead, 434665576869374);
    assert_eq!(shift, 194);
    assert!((log10(&value) - 208.638155).abs() < 1e-5);
}

#[test]
fn leading_part_and_shift_account_for_every_digit() {
    let mut value = big("7");
    for _ in 0..40 {
        let digits = value.to_string().len();
        let (lead, shift) = leading_digits(&value);
        assert_eq!(lead.to_string().len() + shift, digits);
        value = value * IBig::from(13);
    }
}

#[test]
fn leading_part_of_a_negative_number_matches_the_positive_one_with_a_digit_less() {
    let (lead, shift) = leading_digits(&big("-31415926535897932384626"));
    assert_eq!((lead, shift), (31415926535897, 9));
    let (lead, shift) = leading_digits(&big("31415926535897932384626"));
    assert_eq!((lead, shift), (314159265358979, 8));
}
