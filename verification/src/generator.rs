//! The sequential generator: a sequence grown one term at a time from a
//! sliding window of its most recent terms, by a recurrence that is either a
//! list of coefficients or a compiled formula.

use crate::bigint::{
    big_add, big_clone, big_from_i64, big_from_u64, big_mul, big_rem_euclid, big_zero, int_of,
    values,
};
use crate::error::SequenceError;
use crate::expression::{expression_value, Expression};
use crate::matrix::ints;
use crate::sequence::{
    check_parameters, extend, modulus_int, next_term, parameter_error, window_dot,
};
use crate::sequence_lemmas::lemma_extend_len;
use ibig::IBig;
use std::collections::VecDeque;
use vstd::prelude::*;

verus! {

/// How the next term follows from the window of the most recent terms.
#[derive(Debug)]
pub enum Recurrence {
    /// The sum of `coeffs[j]` times the term `j + 1` places back, reduced
    /// where there is a modulus.
    Coefficients { coeffs: Vec<i64>, modulus: Option<u64> },
    /// A compiled formula over the window, in which `a` is the oldest term.
    Formula(Expression),
}

impl Recurrence {
    /// The term that follows a window, oldest term first, or why there is
    /// none: a window that does not fit the coefficients, a zero modulus, or
    /// a formula that has no value on the window.
    pub open spec fn value(self, window: Seq<int>) -> Result<int, SequenceError> {
        match self {
            Recurrence::Coefficients { coeffs, modulus } => if window.len() != coeffs@.len() {
                Err(SequenceError::DimensionMismatch)
            } else if modulus == Some(0u64) {
                Err(SequenceError::InvalidModulus)
            } else {
                Ok(next_term(window, ints(coeffs@), modulus_int(modulus)))
            },
            Recurrence::Formula(e) => match expression_value(e@, window) {
                Some(v) => Ok(v),
                None => Err(SequenceError::MalformedExpression),
            },
        }
    }

    /// What is wrong with the parameters of a recurrence of order `k` that
    /// starts from `init_len` initial values, if anything.
    pub open spec fn fault(self, init_len: nat, k: nat) -> Option<SequenceError> {
        match self {
            Recurrence::Coefficients { coeffs, modulus } => parameter_error(
                init_len,
                k,
                coeffs@.len(),
                modulus,
            ),
            Recurrence::Formula(_) => parameter_error(init_len, k, k, None),
        }
    }

    /// Validates the parameters of a recurrence of order `k` before any
    /// term is computed.
    pub fn validate(&self, init_len: usize, k: usize) -> (r: Result<(), SequenceError>)
        ensures
            r == match self.fault(init_len as nat, k as nat) {
                Some(e) => Err::<(), SequenceError>(e),
                None => Ok(()),
            },
    {
        match self {
            Recurrence::Coefficients { coeffs, modulus } => check_parameters(
                init_len,
                k,
                coeffs.len(),
                *modulus,
            ),
            Recurrence::Formula(_) => check_parameters(init_len, k, k, None),
        }
    }

    /// Computes the term that follows a window. The window is only read.
    pub fn evaluate(&self, window: &VecDeque<IBig>) -> (r: Result<IBig, SequenceError>)
        ensures
            match self.value(values(window@)) {
                Ok(v) => r is Ok && int_of(r->Ok_0) == v,
                Err(e) => r == Err::<IBig, SequenceError>(e),
            },
    {
        match self {
            Recurrence::Coefficients { coeffs, modulus } => {
                let k = coeffs.len();
                if window.len() != k {
                    return Err(SequenceError::DimensionMismatch);
                }
                match modulus {
                    Some(v) => {
                        if *v == 0 {
                            return Err(SequenceError::InvalidModulus);
                        }
                    },
                    None => {},
                }
                let ghost w = values(window@);
                let ghost c = ints(coeffs@);
                let mut next = big_zero();
                let mut j: usize = 0;
                while j < k
                    invariant
                        j <= k,
                        k == coeffs.len(),
                        k == window.len(),
                        w == values(window@),
                        c == ints(coeffs@),
                        int_of(next) == window_dot(w, c, j as nat),
                    decreases k - j,
                {
                    let term = big_mul(&big_from_i64(coeffs[j]), &window[k - j - 1]);
                    next = big_add(&next, &term);
                    j += 1;
                }
                match modulus {
                    Some(v) => {
                        next = big_rem_euclid(&next, &big_from_u64(*v));
                    },
                    None => {},
                }
                Ok(next)
            },
            Recurrence::Formula(e) => e.evaluate(window),
        }
    }
}

/// The last `k` terms of a sequence.
pub open spec fn window_of(s: Seq<int>, k: nat) -> Seq<int> {
    s.skip(s.len() - k)
}

/// The sequence after `steps` steps from the initial values, or the first
/// failure on the way: each step appends the term that follows the window
/// of the last terms, as many as there are initial values.
pub open spec fn unfold(rec: Recurrence, init: Seq<int>, steps: nat) -> Result<
    Seq<int>,
    SequenceError,
>
    decreases steps,
{
    if steps == 0 {
        Ok(init)
    } else {
        match unfold(rec, init, (steps - 1) as nat) {
            Ok(s) => match rec.value(window_of(s, init.len())) {
                Ok(v) => Ok(s.push(v)),
                Err(e) => Err(e),
            },
            Err(e) => Err(e),
        }
    }
}

/// The sequence of a recurrence of order `k` after `steps` steps. Before
/// any step the parameters are validated: the order must be positive and
/// the number of initial values, and coefficients must be as many and their
/// modulus not zero. A formula is taken as it is: what is wrong with it
/// shows at the first step.
pub open spec fn generated(rec: Recurrence, init: Seq<int>, k: nat, steps: nat) -> Result<
    Seq<int>,
    SequenceError,
> {
    match rec.fault(init.len(), k) {
        Some(e) => Err(e),
        None => unfold(rec, init, steps),
    }
}

/// A sequence never loses a term as it grows.
pub proof fn lemma_unfold_len(rec: Recurrence, init: Seq<int>, steps: nat)
    ensures
        unfold(rec, init, steps) is Ok ==> unfold(rec, init, steps)->Ok_0.len() == init.len()
            + steps,
    decreases steps,
{
    if steps > 0 {
        lemma_unfold_len(rec, init, (steps - 1) as nat);
    }
}

/// A failure at one step is the failure of every longer run.
pub proof fn lemma_unfold_fails_on(rec: Recurrence, init: Seq<int>, n: nat, m: nat)
    requires
        n <= m,
        unfold(rec, init, n) is Err,
    ensures
        unfold(rec, init, m) == unfold(rec, init, n),
    decreases m,
{
    if n < m {
        lemma_unfold_fails_on(rec, init, n, (m - 1) as nat);
    }
}

proof fn lemma_window_dot_reads_window(s: Seq<int>, c: Seq<int>, k: nat, n: nat)
    requires
        n <= k <= s.len(),
    ensures
        window_dot(window_of(s, k), c, n) == window_dot(s, c, n),
    decreases n,
{
    if n > 0 {
        lemma_window_dot_reads_window(s, c, k, (n - 1) as nat);
    }
}

/// With coefficients for its recurrence, the sequential generator produces
/// the sequence that the coefficient form describes.
pub proof fn lemma_coefficients_unfold(
    coeffs: Vec<i64>,
    modulus: Option<u64>,
    init: Seq<int>,
    steps: nat,
)
    requires
        init.len() == coeffs@.len(),
        modulus != Some(0u64),
    ensures
        unfold(Recurrence::Coefficients { coeffs, modulus }, init, steps) == Ok::<
            Seq<int>,
            SequenceError,
        >(extend(init, ints(coeffs@), modulus_int(modulus), steps)),
    decreases steps,
{
    if steps > 0 {
        let s1 = (steps - 1) as nat;
        let s = extend(init, ints(coeffs@), modulus_int(modulus), s1);
        lemma_coefficients_unfold(coeffs, modulus, init, s1);
        lemma_extend_len(init, ints(coeffs@), modulus_int(modulus), s1);
        lemma_window_dot_reads_window(s, ints(coeffs@), init.len(), init.len());
    }
}

fn window_from(init: &Vec<IBig>) -> (window: VecDeque<IBig>)
    ensures
        values(window@) == values(init@),
{
    let mut window: VecDeque<IBig> = VecDeque::new();
    let mut i: usize = 0;
    while i < init.len()
        invariant
            i <= init.len(),
            window@.len() == i,
            forall|j: int| 0 <= j < i ==> int_of(#[trigger] window@[j]) == int_of(init@[j]),
        decreases init.len() - i,
    {
        window.push_back(big_clone(&init[i]));
        i += 1;
    }
    window
}

/// Makes one step: computes the term that follows the window, drops the
/// oldest term of the window and appends the new one. On a failure the
/// window is left as it was.
fn advance(window: &mut VecDeque<IBig>, rec: &Recurrence, Ghost(s): Ghost<Seq<int>>) -> (r: Result<
    IBig,
    SequenceError,
>)
    requires
        old(window)@.len() >= 1,
        values(old(window)@) == window_of(s, old(window)@.len()),
        s.len() >= old(window)@.len(),
    ensures
        match rec.value(values(old(window)@)) {
            Ok(v) => r is Ok && int_of(r->Ok_0) == v && final(window)@.len() == old(window)@.len()
                && values(final(window)@) == window_of(s.push(v), old(window)@.len()),
            Err(e) => r == Err::<IBig, SequenceError>(e) && final(window)@ == old(window)@,
        },
{
    match rec.evaluate(window) {
        Ok(next) => {
            let ghost w0 = window@;
            let _ = window.pop_front();
            window.push_back(big_clone(&next));
            assert(values(window@) =~= window_of(s.push(int_of(next)), w0.len())) by {
                let k = w0.len() as int;
                let w1 = values(window@);
                let t = window_of(s.push(int_of(next)), w0.len());
                assert forall|i: int| 0 <= i < k implies w1[i] == t[i] by {
                    if i < k - 1 {
                        assert(values(w0)[i + 1] == window_of(s, w0.len())[i + 1]);
                    }
                }
            }
            Ok(next)
        },
        Err(e) => Err(e),
    }
}

/// The initial values followed by `n` generated terms.
pub fn generate_sequence(n: u128, init: Vec<IBig>, k: usize, rec: &Recurrence) -> (r: Result<
    Vec<IBig>,
    SequenceError,
>)
    requires
        init.len() + n <= usize::MAX,
    ensures
        match generated(*rec, values(init@), k as nat, n as nat) {
            Ok(s) => r is Ok && values(r->Ok_0@) == s && r->Ok_0.len() == k + n,
            Err(e) => r == Err::<Vec<IBig>, SequenceError>(e),
        },
{
    match rec.validate(init.len(), k) {
        Err(e) => {
            return Err(e);
        },
        Ok(_) => {},
    }
    let ghost init0 = values(init@);
    let steps: usize = n as usize;
    let mut window = window_from(&init);
    let mut seq = init;
    let mut t: usize = 0;
    while t < steps
        invariant
            t <= steps,
            k >= 1,
            init0.len() == k,
            init0 == values(init@),
            steps == n,
            k + steps <= usize::MAX,
            window@.len() == k,
            seq.len() == k + t,
            unfold(*rec, init0, t as nat) == Ok::<Seq<int>, SequenceError>(values(seq@)),
            values(window@) == window_of(values(seq@), k as nat),
        decreases steps - t,
    {
        let ghost s = values(seq@);
        match advance(&mut window, rec, Ghost(s)) {
            Ok(next) => {
                seq.push(next);
                assert(values(seq@) =~= s.push(int_of(next)));
            },
            Err(e) => {
                proof {
                    assert(unfold(*rec, init0, (t + 1) as nat) == Err::<Seq<int>, SequenceError>(
                        e,
                    ));
                    lemma_unfold_fails_on(*rec, init0, (t + 1) as nat, steps as nat);
                }
                return Err(e);
            },
        }
        t += 1;
    }
    Ok(seq)
}

/// The last of the initial values followed by `n` generated terms: the
/// last initial value itself where `n` is 0.
pub fn generate_term(n: u128, init: Vec<IBig>, k: usize, rec: &Recurrence) -> (r: Result<
    IBig,
    SequenceError,
>)
    ensures
        match generated(*rec, values(init@), k as nat, n as nat) {
            Ok(s) => r is Ok && int_of(r->Ok_0) == s.last(),
            Err(e) => r == Err::<IBig, SequenceError>(e),
        },
{
    match rec.validate(init.len(), k) {
        Err(e) => {
            return Err(e);
        },
        Ok(_) => {},
    }
    let ghost init0 = values(init@);
    let mut window = window_from(&init);
    let ghost mut s = init0;
    let mut t: u128 = 0;
    while t < n
        invariant
            t <= n,
            k >= 1,
            init0.len() == k,
            init0 == values(init@),
            window@.len() == k,
            s.len() == k + t,
            unfold(*rec, init0, t as nat) == Ok::<Seq<int>, SequenceError>(s),
            values(window@) == window_of(s, k as nat),
        decreases n - t,
    {
        match advance(&mut window, rec, Ghost(s)) {
            Ok(next) => {
                proof {
                    s = s.push(int_of(next));
                }
            },
            Err(e) => {
                proof {
                    assert(unfold(*rec, init0, (t + 1) as nat) == Err::<Seq<int>, SequenceError>(
                        e,
                    ));
                    lemma_unfold_fails_on(*rec, init0, (t + 1) as nat, n as nat);
                }
                return Err(e);
            },
        }
        t += 1;
    }
    let ghost w = window@;
    let last = window.pop_back();
    assert(values(w)[k - 1] == window_of(s, k as nat)[k - 1]);
    Ok(last.unwrap())
}

} // verus!
