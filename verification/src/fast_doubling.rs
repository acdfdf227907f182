//! The Fibonacci numbers by fast doubling: a pair of neighbouring terms at
//! index `n` from the pair at index `n / 2`.

use crate::bigint::{big_add, big_from_i64, big_mul, big_one, big_sub, big_zero, int_of};
use ibig::IBig;
use vstd::prelude::*;

verus! {

/// The Fibonacci numbers: 0, 1, 1, 2, 3, 5, ...
pub open spec fn fib(n: nat) -> int
    decreases n,
{
    if n == 0 {
        0
    } else if n == 1 {
        1
    } else {
        fib((n - 1) as nat) + fib((n - 2) as nat)
    }
}

/// The addition law: `fib(a + b + 1) = fib(a + 1) fib(b + 1) + fib(a) fib(b)`.
pub proof fn lemma_fib_addition(a: nat, b: nat)
    ensures
        fib(a + b + 1) == fib(a + 1) * fib(b + 1) + fib(a) * fib(b),
    decreases b,
{
    if b == 1 {
        assert(fib(2) == 1) by {
            assert(fib(2) == fib(1) + fib(0));
        }
        assert(fib(a + 1) * 1 + fib(a) * 1 == fib(a + 1) + fib(a)) by (nonlinear_arith);
    } else if b >= 2 {
        let b1 = (b - 1) as nat;
        let b2 = (b - 2) as nat;
        lemma_fib_addition(a, b1);
        lemma_fib_addition(a, b2);
        let x = fib(a + 1);
        let y = fib(a);
        assert((x * fib(b) + y * fib(b1)) + (x * fib(b1) + y * fib(b2)) == x * (fib(b) + fib(b1))
            + y * (fib(b1) + fib(b2))) by (nonlinear_arith);
    }
}

/// The doubling identities that carry a pair from index `m` to index `2m`.
pub proof fn lemma_fib_doubling(m: nat)
    ensures
        fib(2 * m) == fib(m) * (2 * fib(m + 1) - fib(m)),
        fib(2 * m + 1) == fib(m) * fib(m) + fib(m + 1) * fib(m + 1),
{
    lemma_fib_addition(m, m);
    if m == 0 {
        assert(fib(0) * (2 * fib(1) - fib(0)) == 0) by (nonlinear_arith)
            requires
                fib(0) == 0,
        ;
    } else {
        let m1 = (m - 1) as nat;
        lemma_fib_addition(m1, m);
        let x = fib(m);
        let y = fib(m + 1);
        let z = fib(m1);
        assert(x * y + z * x == x * (2 * y - x)) by (nonlinear_arith)
            requires
                y == x + z,
        ;
    }
}

/// The Fibonacci numbers at `n` and `n + 1`, in a number of steps
/// logarithmic in `n`.
pub fn fib_pair(n: u128) -> (pair: (IBig, IBig))
    ensures
        int_of(pair.0) == fib(n as nat),
        int_of(pair.1) == fib((n + 1) as nat),
    decreases n,
{
    if n == 0 {
        (big_zero(), big_one())
    } else {
        let (a, b) = fib_pair(n / 2);
        let two = big_from_i64(2);
        let twice_b = big_mul(&b, &two);
        let c = big_mul(&a, &big_sub(&twice_b, &a));
        let d = big_add(&big_mul(&a, &a), &big_mul(&b, &b));
        proof {
            lemma_fib_doubling((n / 2) as nat);
            assert(int_of(twice_b) == 2 * int_of(b)) by (nonlinear_arith)
                requires
                    int_of(twice_b) == int_of(b) * 2,
            ;
        }
        if n % 2 == 0 {
            (c, d)
        } else {
            let sum = big_add(&c, &d);
            (d, sum)
        }
    }
}

/// The Fibonacci number at `n`, with `fib(0) = 0` and `fib(1) = 1`.
pub fn generate_fib(n: u128) -> (r: IBig)
    ensures
        int_of(r) == fib(n as nat),
{
    fib_pair(n).0
}

} // verus!
