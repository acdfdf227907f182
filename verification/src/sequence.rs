//! Linear recurrence sequences: the prefix of a sequence by iteration, and a
//! single term by one power of the companion matrix.

use crate::bigint::{
    big_add, big_eq, big_from_i64, big_from_u64, big_mul, big_one, big_rem_euclid, big_zero,
    int_of, values,
};
use crate::error::SequenceError;
use crate::fast_doubling::{fib, generate_fib};
use crate::matrix::{
    build_matrix, companion, dot, entries, ints, mat_pow, mat_power, mat_reduce, modulus_of,
    reduce, valid_modulus,
};
use crate::matrix_lemmas::{lemma_dot_congruent, lemma_power_square, lemma_reduce_idempotent};
use crate::sequence_lemmas::{
    hankel, lemma_companion_power, lemma_extend_len, lemma_fast_doubling_agrees,
    lemma_generated_in_range,
};
use ibig::IBig;
use vstd::arithmetic::div_mod::lemma_add_mod_noop_right;
use vstd::prelude::*;

verus! {

/// A machine modulus as a mathematical one.
pub open spec fn modulus_int(m: Option<u64>) -> Option<int> {
    match m {
        Some(v) => Some(v as int),
        None => None,
    }
}

/// The sum of `coeffs[j]` times the term `j + 1` places before the end of
/// `s`, over `j` below `n`.
pub open spec fn window_dot(s: Seq<int>, coeffs: Seq<int>, n: nat) -> int
    decreases n,
{
    if n == 0 {
        0
    } else {
        window_dot(s, coeffs, (n - 1) as nat) + coeffs[n - 1] * s[s.len() - n]
    }
}

/// The term that follows the sequence `s`.
pub open spec fn next_term(s: Seq<int>, coeffs: Seq<int>, m: Option<int>) -> int {
    reduce(window_dot(s, coeffs, coeffs.len()), m)
}

/// The initial values followed by `steps` generated terms.
pub open spec fn extend(init: Seq<int>, coeffs: Seq<int>, m: Option<int>, steps: nat) -> Seq<int>
    decreases steps,
{
    if steps == 0 {
        init
    } else {
        let s = extend(init, coeffs, m, (steps - 1) as nat);
        s.push(next_term(s, coeffs, m))
    }
}

/// The term at position `i`, counted from 0, of the sequence that starts
/// with `init`.
pub open spec fn term_at(init: Seq<int>, coeffs: Seq<int>, m: Option<int>, i: nat) -> int {
    if i < init.len() {
        init[i as int]
    } else {
        extend(init, coeffs, m, (i + 1 - init.len()) as nat)[i as int]
    }
}

/// The `n`-th term, counted from 1, of the recurrence computed over the
/// integers, reduced at the end.
pub open spec fn nth_value(init: Seq<int>, coeffs: Seq<int>, m: Option<int>, n: nat) -> int {
    reduce(term_at(init, coeffs, None, (n - 1) as nat), m)
}

fn big_modulus(mod_x: Option<u64>) -> (m: Option<IBig>)
    ensures
        modulus_of(m) == modulus_int(mod_x),
{
    match mod_x {
        Some(v) => Some(big_from_u64(v)),
        None => None,
    }
}

/// The initial values followed by `n` generated terms. Each new term is the
/// sum of `coeffs[j]` times the term `j + 1` places before it, reduced where
/// there is a modulus.
pub fn generate_list(
    n: u128,
    init: Vec<IBig>,
    n_params: usize,
    coeffs: &[i64],
    mod_x: Option<u64>,
) -> (seq: Vec<IBig>)
    requires
        init.len() == n_params,
        coeffs.len() == n_params,
        mod_x != Some(0u64),
        init.len() + n <= usize::MAX,
    ensures
        seq.len() == n_params + n,
        values(seq@) == extend(values(init@), ints(coeffs@), modulus_int(mod_x), n as nat),
        forall|i: int|
            mod_x is Some && n_params <= i < seq.len() ==> 0 <= int_of(#[trigger] seq[i])
                < mod_x->Some_0,
{
    let k = coeffs.len();
    let steps: usize = n as usize;
    let modulus = big_modulus(mod_x);
    let ghost init0 = values(init@);
    let ghost c = ints(coeffs@);
    let ghost m = modulus_int(mod_x);
    let mut seq = init;
    let mut t: usize = 0;
    while t < steps
        invariant
            t <= steps,
            k == coeffs.len(),
            k + steps <= usize::MAX,
            c == ints(coeffs@),
            m == modulus_of(modulus),
            valid_modulus(m),
            seq.len() == k + t,
            values(seq@) == extend(init0, c, m, t as nat),
        decreases steps - t,
    {
        let ghost s = values(seq@);
        let len = seq.len();
        let mut next = big_zero();
        let mut j: usize = 0;
        while j < k
            invariant
                j <= k,
                k == coeffs.len(),
                c == ints(coeffs@),
                len == seq.len(),
                len >= k,
                s == values(seq@),
                int_of(next) == window_dot(s, c, j as nat),
            decreases k - j,
        {
            let term = big_mul(&big_from_i64(coeffs[j]), &seq[len - j - 1]);
            next = big_add(&next, &term);
            j += 1;
        }
        if let Some(md) = &modulus {
            next = big_rem_euclid(&next, md);
        }
        seq.push(next);
        t += 1;
    }
    proof {
        assert forall|i: int| mod_x is Some && n_params <= i < seq.len() implies 0 <= int_of(
            #[trigger] seq[i],
        ) < mod_x->Some_0 by {
            lemma_generated_in_range(init0, c, mod_x->Some_0 as int, n as nat, i);
        }
    }
    seq
}

/// The `n`-th term of the sequence, counted from 1, so that the terms 1 to
/// `n_params` are the initial values. With `raw_fib` the other arguments are
/// set aside and the result is the Fibonacci number at `n`, by fast doubling.
/// Otherwise the term comes from the power `n - 1` of the companion matrix
/// and is reduced where there is a modulus.
pub fn generate(
    n: u128,
    init: Vec<IBig>,
    n_params: usize,
    coeffs: &[i64],
    mod_x: Option<u64>,
    raw_fib: bool,
) -> (r: IBig)
    requires
        !raw_fib ==> n >= 1 && n_params >= 1 && init.len() == n_params && coeffs.len()
            == n_params && mod_x != Some(0u64),
    ensures
        raw_fib ==> int_of(r) == fib(n as nat),
        !raw_fib ==> int_of(r) == nth_value(
            values(init@),
            ints(coeffs@),
            modulus_int(mod_x),
            n as nat,
        ),
{
    if raw_fib {
        return generate_fib(n);
    }
    let k = n_params;
    let e = n - 1;
    let ghost iv = values(init@);
    let ghost c = ints(coeffs@);
    let ghost m = modulus_int(mod_x);
    let ghost h0 = hankel(iv, c, 0);
    let mat = build_matrix(coeffs);
    let m_pow = mat_pow(mat, e, big_modulus(mod_x));
    let modulus = big_modulus(mod_x);
    let ghost mp = entries(m_pow@);
    proof {
        lemma_power_square(companion(c), e as nat);
        lemma_reduce_idempotent(mat_power(companion(c), e as nat), m);
        assert(mp[k - 1].len() == k);
    }
    let last = k - 1;
    let mut result = big_zero();
    let mut i: usize = 0;
    while i < k
        invariant
            i <= k,
            k >= 1,
            last == k - 1,
            init.len() == k,
            m_pow.len() == k,
            m_pow[last as int].len() == k,
            mp == entries(m_pow@),
            iv == values(init@),
            h0 == hankel(iv, c, 0),
            c.len() == k,
            m == modulus_of(modulus),
            valid_modulus(m),
            i == 0 ==> int_of(result) == 0,
            i > 0 ==> int_of(result) == reduce(dot(mp, h0, last as int, 0, i as nat), m),
        decreases k - i,
    {
        let term = big_mul(&m_pow[last][i], &init[k - i - 1]);
        result = big_add(&result, &term);
        if let Some(md) = &modulus {
            result = big_rem_euclid(&result, md);
        }
        proof {
            let d = dot(mp, h0, last as int, 0, i as nat);
            let p = mp[last as int][i as int] * h0[i as int][0];
            if let Some(v) = m {
                lemma_add_mod_noop_right(p, d, v);
            }
        }
        i += 1;
    }
    proof {
        let ce = mat_power(companion(c), e as nat);
        assert(mat_reduce(mp, m) == mat_reduce(ce, m));
        assert forall|l: int| 0 <= l < k implies reduce(#[trigger] mp[last as int][l], m)
            == reduce(ce[last as int][l], m) by {
            assert(mat_reduce(mp, m)[last as int][l] == mat_reduce(ce, m)[last as int][l]);
        }
        lemma_dot_congruent(mp, ce, h0, h0, last as int, 0, k as nat, m);
        lemma_companion_power(iv, c, e as nat);
        lemma_extend_len(iv, c, None, (e + 1) as nat);
    }
    result
}

/// What is wrong with the parameters of a recurrence of order `k`, if
/// anything: the dimensions are looked at before the modulus.
pub open spec fn parameter_error(
    init_len: nat,
    k: nat,
    coeffs_len: nat,
    modulus: Option<u64>,
) -> Option<SequenceError> {
    if k == 0 || init_len != k || coeffs_len != k {
        Some(SequenceError::DimensionMismatch)
    } else if modulus == Some(0u64) {
        Some(SequenceError::InvalidModulus)
    } else {
        None
    }
}

/// Validates the parameters of a recurrence before any term is computed.
pub fn check_parameters(
    init_len: usize,
    n_params: usize,
    coeffs_len: usize,
    mod_x: Option<u64>,
) -> (r: Result<(), SequenceError>)
    ensures
        r == match parameter_error(init_len as nat, n_params as nat, coeffs_len as nat, mod_x) {
            Some(e) => Err::<(), SequenceError>(e),
            None => Ok(()),
        },
{
    if n_params == 0 || init_len != n_params || coeffs_len != n_params {
        return Err(SequenceError::DimensionMismatch);
    }
    match mod_x {
        Some(v) => {
            if v == 0 {
                return Err(SequenceError::InvalidModulus);
            }
        },
        None => {},
    }
    Ok(())
}

/// The one recurrence that fast doubling serves: order 2, coefficients 1, 1,
/// initial values 1, 1, no modulus.
pub open spec fn canonical(init: Seq<int>, coeffs: Seq<int>, modulus: Option<u64>) -> bool {
    &&& init == seq![1int, 1int]
    &&& coeffs == seq![1int, 1int]
    &&& modulus is None
}

/// Tells whether the parameters are those of the Fibonacci sequence itself.
pub fn is_canonical(init: &Vec<IBig>, coeffs: &[i64], mod_x: Option<u64>) -> (b: bool)
    ensures
        b == canonical(values(init@), ints(coeffs@), mod_x),
{
    if init.len() != 2 || coeffs.len() != 2 || mod_x.is_some() {
        assert(values(init@).len() == init.len() && ints(coeffs@).len() == coeffs.len());
        return false;
    }
    let one = big_one();
    let b = coeffs[0] == 1 && coeffs[1] == 1 && big_eq(&init[0], &one) && big_eq(&init[1], &one);
    proof {
        if b {
            assert(values(init@) =~= seq![1int, 1int]);
            assert(ints(coeffs@) =~= seq![1int, 1int]);
        }
    }
    b
}

/// The `n`-th term of a recurrence of order `k`, counted from 1, after its
/// parameters have been validated. The Fibonacci sequence itself is served
/// by fast doubling, every other recurrence by the companion matrix; the
/// result does not show which.
pub fn nth_term(n: u128, init: Vec<IBig>, k: usize, coeffs: &[i64], modulus: Option<u64>) -> (r:
    Result<IBig, SequenceError>)
    requires
        n >= 1,
    ensures
        match parameter_error(init.len() as nat, k as nat, coeffs.len() as nat, modulus) {
            Some(e) => r == Err::<IBig, SequenceError>(e),
            None => r is Ok && int_of(r->Ok_0) == nth_value(
                values(init@),
                ints(coeffs@),
                modulus_int(modulus),
                n as nat,
            ),
        },
{
    match check_parameters(init.len(), k, coeffs.len(), modulus) {
        Err(e) => {
            return Err(e);
        },
        Ok(_) => {},
    }
    let raw_fib = is_canonical(&init, coeffs, modulus);
    proof {
        if raw_fib {
            lemma_fast_doubling_agrees(n as nat);
        }
    }
    Ok(generate(n, init, k, coeffs, modulus, raw_fib))
}

} // verus!
