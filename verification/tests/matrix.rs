use fib::matrix::{build_matrix, mat_mul, mat_pow};
use ibig::IBig;

fn matrix(rows: &[&[i64]]) -> Vec<Vec<IBig>> {
    rows.iter()
        .map(|row| row.iter().map(|x| IBig::from(*x)).collect())
        .collect()
}

#[test]
fn companion_of_fibonacci() {
    assert_eq!(build_matrix(&[1, 1]), matrix(&[&[1, 1], &[1, 0]]));
}

#[test]
fn companion_of_order_three() {
    assert_eq!(
        build_matrix(&[2, -3, 5]),
        matrix(&[&[2, -3, 5], &[1, 0, 0], &[0, 1, 0]])
    );
}

#[test]
fn companion_of_order_one() {
    assert_eq!(build_matrix(&[7]), matrix(&[&[7]]));
}

#[test]
fn product_without_modulus() {
    let a = matrix(&[&[1, 2], &[3, 4]]);
    let b = matrix(&[&[5, 6], &[7, 8]]);
    assert_eq!(mat_mul(&a, &b, &None), matrix(&[&[19, 22], &[43, 50]]));
}

#[test]
fn product_is_not_commutative() {
    let a = matrix(&[&[1, 2], &[3, 4]]);
    let b = matrix(&[&[5, 6], &[7, 8]]);
    assert_eq!(mat_mul(&b, &a, &None), matrix(&[&[23, 34], &[31, 46]]));
}

#[test]
fn product_with_modulus_reduces_every_entry() {
    let a = matrix(&[&[1, 2], &[3, 4]]);
    let b = matrix(&[&[5, 6], &[7, 8]]);
    let m = Some(IBig::from(10));
    assert_eq!(mat_mul(&a, &b, &m), matrix(&[&[9, 2], &[3, 0]]));
}

#[test]
fn product_with_modulus_of_negative_entries_is_not_negative() {
    let a = matrix(&[&[-1, 0], &[0, -2]]);
    let b = matrix(&[&[1, 0], &[0, 1]]);
    let m = Some(IBig::from(5));
    assert_eq!(mat_mul(&a, &b, &m), matrix(&[&[4, 0], &[0, 3]]));
}

#[test]
fn product_does_not_change_its_arguments() {
    let a = matrix(&[&[1, 2], &[3, 4]]);
    let b = matrix(&[&[5, 6], &[7, 8]]);
    let _ = mat_mul(&a, &b, &None);
    assert_eq!(a, matrix(&[&[1, 2], &[3, 4]]));
    assert_eq!(b, matrix(&[&[5, 6], &[7, 8]]));
}

#[test]
fn power_zero_is_identity() {
    let base = matrix(&[&[3, 9, -4], &[0, 7, 1], &[2, 2, 2]]);
    assert_eq!(
        mat_pow(base, 0, None),
        matrix(&[&[1, 0, 0], &[0, 1, 0], &[0, 0, 1]])
    );
}

#[test]
fn power_zero_is_identity_with_modulus_one() {
    let base = matrix(&[&[3, 9], &[0, 7]]);
    assert_eq!(
        mat_pow(base, 0, Some(IBig::from(1))),
        matrix(&[&[1, 0], &[0, 1]])
    );
}

#[test]
fn power_one_is_the_base() {
    let base = matrix(&[&[3, 9], &[0, 7]]);
    assert_eq!(mat_pow(base, 1, None), matrix(&[&[3, 9], &[0, 7]]));
}

#[test]
fn power_of_fibonacci_matrix() {
    let base = build_matrix(&[1, 1]);
    assert_eq!(mat_pow(base, 10, None), matrix(&[&[89, 55], &[55, 34]]));
}

#[test]
fn power_with_modulus() {
    let base = build_matrix(&[1, 1]);
    assert_eq!(
        mat_pow(base, 10, Some(IBig::from(10))),
        matrix(&[&[9, 5], &[5, 4]])
    );
}

#[test]
fn power_with_large_exponent_and_modulus() {
    // 2^100 mod 1000000007 = 976371285
    let base = matrix(&[&[2]]);
    assert_eq!(
        mat_pow(base, 100, Some(IBig::from(1_000_000_007u64))),
        matrix(&[&[976371285]])
    );
}

#[test]
fn power_agrees_with_repeated_product() {
    let base = matrix(&[&[1, 2, 0], &[0, 1, 3], &[4, 0, 1]]);
    let mut expected = matrix(&[&[1, 0, 0], &[0, 1, 0], &[0, 0, 1]]);
    for _ in 0..13 {
        expected = mat_mul(&expected, &base, &None);
    }
    assert_eq!(mat_pow(base, 13, None), expected);
}

#[test]
fn product_is_associative() {
    let a = matrix(&[&[1, -2, 3], &[0, 4, 5], &[7, 0, -1]]);
    let b = matrix(&[&[2, 0, 1], &[1, 1, 1], &[-3, 5, 0]]);
    let c = matrix(&[&[0, 6, -1], &[2, 2, 2], &[9, -4, 3]]);
    for m in [None, Some(IBig::from(11))] {
        let left = mat_mul(&mat_mul(&a, &b, &m), &c, &m);
        let right = mat_mul(&a, &mat_mul(&b, &c, &m), &m);
        assert_eq!(left, right);
    }
}

#[test]
fn identity_is_neutral() {
    let a = matrix(&[&[1, -2], &[3, 4]]);
    let one = matrix(&[&[1, 0], &[0, 1]]);
    assert_eq!(mat_mul(&a, &one, &None), a);
    assert_eq!(mat_mul(&one, &a, &None), a);
}

#[test]
fn exponents_add() {
    let base = matrix(&[&[1, 1, 0], &[2, 0, 1], &[0, 3, 1]]);
    for m in [None, Some(IBig::from(1000))] {
        let p5 = mat_pow(base.clone(), 5, m.clone());
        let p9 = mat_pow(base.clone(), 9, m.clone());
        let p14 = mat_pow(base.clone(), 14, m.clone());
        assert_eq!(mat_mul(&p5, &p9, &m), p14);
    }
}

#[test]
fn power_with_modulus_is_the_reduced_power() {
    let base = matrix(&[&[3, -1], &[4, 2]]);
    let exact = mat_pow(base.clone(), 17, None);
    let reduced = mat_pow(base, 17, Some(IBig::from(97)));
    for i in 0..2 {
        for j in 0..2 {
            let r = ((&exact[i][j] % IBig::from(97)) + IBig::from(97)) % IBig::from(97);
            assert_eq!(reduced[i][j], r);
        }
    }
}
