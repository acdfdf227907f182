//! Facts about recurrence sequences: how a prefix grows, that the companion
//! matrix advances a sequence by one place, and what follows for the terms
//! that the library computes.

use crate::fast_doubling::fib;
use crate::matrix::{companion, dot, mat_power, mat_prod, reduce, valid_modulus};
use crate::matrix_lemmas::{lemma_identity_left, lemma_power_square, lemma_prod_assoc};
use crate::sequence::{extend, nth_value, term_at, window_dot};
use vstd::arithmetic::div_mod::{
    lemma_add_mod_noop, lemma_mod_bound, lemma_mod_twice, lemma_mul_mod_noop_right,
};
use vstd::prelude::*;

verus! {

/// A prefix has one term for each initial value and each step.
pub proof fn lemma_extend_len(init: Seq<int>, coeffs: Seq<int>, m: Option<int>, steps: nat)
    ensures
        extend(init, coeffs, m, steps).len() == init.len() + steps,
    decreases steps,
{
    if steps > 0 {
        lemma_extend_len(init, coeffs, m, (steps - 1) as nat);
    }
}

/// Growing a prefix leaves the terms it already has in place.
pub proof fn lemma_extend_index(
    init: Seq<int>,
    coeffs: Seq<int>,
    m: Option<int>,
    steps: nat,
    i: nat,
)
    requires
        i < init.len() + steps,
    ensures
        extend(init, coeffs, m, steps)[i as int] == term_at(init, coeffs, m, i),
    decreases steps,
{
    if steps > 0 {
        let s1 = (steps - 1) as nat;
        lemma_extend_len(init, coeffs, m, s1);
        if i < init.len() + s1 {
            lemma_extend_index(init, coeffs, m, s1, i);
        }
    }
}

/// The sum of `coeffs[l]` times the term `l + 1` places before position `i`,
/// over `l` below `n`.
pub open spec fn back_sum(
    init: Seq<int>,
    coeffs: Seq<int>,
    m: Option<int>,
    i: nat,
    n: nat,
) -> int
    decreases n,
{
    if n == 0 {
        0
    } else {
        back_sum(init, coeffs, m, i, (n - 1) as nat) + coeffs[n - 1] * term_at(
            init,
            coeffs,
            m,
            (i - n) as nat,
        )
    }
}

proof fn lemma_window_is_back_sum(
    init: Seq<int>,
    coeffs: Seq<int>,
    m: Option<int>,
    i: nat,
    n: nat,
)
    requires
        i >= init.len(),
        n <= i,
    ensures
        window_dot(extend(init, coeffs, m, (i - init.len()) as nat), coeffs, n) == back_sum(
            init,
            coeffs,
            m,
            i,
            n,
        ),
    decreases n,
{
    if n > 0 {
        let steps = (i - init.len()) as nat;
        lemma_window_is_back_sum(init, coeffs, m, i, (n - 1) as nat);
        lemma_extend_len(init, coeffs, m, steps);
        lemma_extend_index(init, coeffs, m, steps, (i - n) as nat);
    }
}

/// Past the initial values, each term is the reduced sum of the coefficients
/// times the terms before it.
pub proof fn lemma_term_recurrence(init: Seq<int>, coeffs: Seq<int>, m: Option<int>, i: nat)
    requires
        init.len() == coeffs.len(),
        i >= init.len(),
    ensures
        term_at(init, coeffs, m, i) == reduce(back_sum(init, coeffs, m, i, coeffs.len()), m),
{
    lemma_extend_len(init, coeffs, m, (i - init.len()) as nat);
    lemma_window_is_back_sum(init, coeffs, m, i, coeffs.len());
}

/// The square matrix whose entry in row `i` and column `j` is the term at
/// position `t + k - 1 - i + j` of the sequence computed over the integers:
/// column 0 holds the `k` terms from position `t`, newest first.
pub open spec fn hankel(init: Seq<int>, coeffs: Seq<int>, t: nat) -> Seq<Seq<int>> {
    Seq::new(
        coeffs.len(),
        |i: int|
            Seq::new(
                coeffs.len(),
                |j: int| term_at(init, coeffs, None, (t + coeffs.len() - 1 - i + j) as nat),
            ),
    )
}

proof fn lemma_dot_first_row(init: Seq<int>, coeffs: Seq<int>, t: nat, j: int, n: nat)
    requires
        0 <= j < coeffs.len(),
        n <= coeffs.len(),
    ensures
        dot(companion(coeffs), hankel(init, coeffs, t), 0, j, n) == back_sum(
            init,
            coeffs,
            None,
            (t + coeffs.len() + j) as nat,
            n,
        ),
    decreases n,
{
    if n > 0 {
        lemma_dot_first_row(init, coeffs, t, j, (n - 1) as nat);
        let l = n - 1;
        assert(hankel(init, coeffs, t)[l][j] == term_at(
            init,
            coeffs,
            None,
            (t + coeffs.len() - 1 - l + j) as nat,
        ));
    }
}

proof fn lemma_dot_shift_row(coeffs: Seq<int>, h: Seq<Seq<int>>, i: int, j: int, n: nat)
    requires
        1 <= i < coeffs.len(),
        n <= coeffs.len(),
    ensures
        dot(companion(coeffs), h, i, j, n) == if i - 1 < n {
            h[i - 1][j]
        } else {
            0
        },
    decreases n,
{
    if n > 0 {
        lemma_dot_shift_row(coeffs, h, i, j, (n - 1) as nat);
    }
}

/// The companion matrix moves every term of the window one place on.
pub proof fn lemma_companion_step(init: Seq<int>, coeffs: Seq<int>, t: nat)
    requires
        init.len() == coeffs.len(),
    ensures
        mat_prod(companion(coeffs), hankel(init, coeffs, t)) == hankel(init, coeffs, t + 1),
{
    let k = coeffs.len();
    let c = companion(coeffs);
    let h = hankel(init, coeffs, t);
    let l = mat_prod(c, h);
    let r = hankel(init, coeffs, t + 1);
    assert forall|i: int| 0 <= i < k implies #[trigger] l[i] == r[i] by {
        assert forall|j: int| 0 <= j < k implies #[trigger] l[i][j] == r[i][j] by {
            if i == 0 {
                lemma_dot_first_row(init, coeffs, t, j, k);
                lemma_term_recurrence(init, coeffs, None, (t + k + j) as nat);
            } else {
                lemma_dot_shift_row(coeffs, h, i, j, k);
            }
        }
    }
}

/// The power `e` of the companion matrix moves the window `e` places on, so
/// its last row, applied to the initial values newest first, gives the term
/// at position `e`.
pub proof fn lemma_companion_power(init: Seq<int>, coeffs: Seq<int>, e: nat)
    requires
        init.len() == coeffs.len(),
    ensures
        mat_prod(mat_power(companion(coeffs), e), hankel(init, coeffs, 0)) == hankel(
            init,
            coeffs,
            e,
        ),
        coeffs.len() >= 1 ==> dot(
            mat_power(companion(coeffs), e),
            hankel(init, coeffs, 0),
            coeffs.len() - 1,
            0,
            coeffs.len(),
        ) == term_at(init, coeffs, None, e),
    decreases e,
{
    let k = coeffs.len();
    let c = companion(coeffs);
    let h0 = hankel(init, coeffs, 0);
    if e == 0 {
        lemma_identity_left(h0, k);
    } else {
        let e1 = (e - 1) as nat;
        lemma_companion_power(init, coeffs, e1);
        lemma_power_square(c, e1);
        lemma_prod_assoc(c, mat_power(c, e1), h0);
        lemma_companion_step(init, coeffs, e1);
    }
    if k >= 1 {
        lemma_power_square(c, e);
        assert(hankel(init, coeffs, e)[k - 1][0] == term_at(init, coeffs, None, e));
    }
}

proof fn lemma_back_sum_congruent(init: Seq<int>, coeffs: Seq<int>, m: Option<int>, i: nat, n: nat)
    requires
        init.len() == coeffs.len(),
        valid_modulus(m),
        n <= i,
    ensures
        reduce(back_sum(init, coeffs, m, i, n), m) == reduce(back_sum(init, coeffs, None, i, n), m),
    decreases i, n,
{
    if n > 0 {
        let n1 = (n - 1) as nat;
        let j = (i - n) as nat;
        lemma_back_sum_congruent(init, coeffs, m, i, n1);
        lemma_term_congruent(init, coeffs, m, j);
        if let Some(v) = m {
            let c = coeffs[n - 1];
            let x = term_at(init, coeffs, m, j);
            let y = term_at(init, coeffs, None, j);
            lemma_mul_mod_noop_right(c, x, v);
            lemma_mul_mod_noop_right(c, y, v);
            lemma_add_mod_noop(back_sum(init, coeffs, m, i, n1), c * x, v);
            lemma_add_mod_noop(back_sum(init, coeffs, None, i, n1), c * y, v);
        }
    }
}

/// Reducing as the sequence grows and reducing at the end agree: each term
/// of the reduced sequence is congruent to the term computed over the
/// integers, and past the initial values it is that term reduced.
pub proof fn lemma_term_congruent(init: Seq<int>, coeffs: Seq<int>, m: Option<int>, i: nat)
    requires
        init.len() == coeffs.len(),
        valid_modulus(m),
    ensures
        reduce(term_at(init, coeffs, m, i), m) == reduce(term_at(init, coeffs, None, i), m),
        i >= init.len() ==> term_at(init, coeffs, m, i) == reduce(
            term_at(init, coeffs, None, i),
            m,
        ),
    decreases i, coeffs.len() + 1,
{
    if i >= init.len() {
        lemma_term_recurrence(init, coeffs, m, i);
        lemma_term_recurrence(init, coeffs, None, i);
        lemma_back_sum_congruent(init, coeffs, m, i, coeffs.len());
        if let Some(v) = m {
            lemma_mod_twice(back_sum(init, coeffs, None, i, coeffs.len()), v);
        }
    }
}

/// The last term of a generated prefix is the term that the matrix method
/// gives for its position. Without a generated term the last term is an
/// initial value, which the matrix method reduces, so then the two agree
/// where that value is already reduced.
pub proof fn lemma_last_is_nth_value(init: Seq<int>, coeffs: Seq<int>, m: Option<int>, steps: nat)
    requires
        init.len() == coeffs.len(),
        init.len() >= 1,
        valid_modulus(m),
        steps >= 1 || reduce(init.last(), m) == init.last(),
    ensures
        extend(init, coeffs, m, steps).len() == init.len() + steps,
        extend(init, coeffs, m, steps).last() == nth_value(init, coeffs, m, init.len() + steps),
{
    let i = (init.len() + steps - 1) as nat;
    lemma_extend_len(init, coeffs, m, steps);
    lemma_extend_index(init, coeffs, m, steps, i);
    lemma_term_congruent(init, coeffs, m, i);
}

/// With a modulus, every generated term lies from 0 up to, not including,
/// the modulus.
pub proof fn lemma_generated_in_range(
    init: Seq<int>,
    coeffs: Seq<int>,
    v: int,
    steps: nat,
    i: int,
)
    requires
        init.len() == coeffs.len(),
        v > 0,
        init.len() <= i < init.len() + steps,
    ensures
        0 <= extend(init, coeffs, Some(v), steps)[i] < v,
{
    lemma_extend_index(init, coeffs, Some(v), steps, i as nat);
    lemma_term_recurrence(init, coeffs, Some(v), i as nat);
    lemma_mod_bound(back_sum(init, coeffs, Some(v), i as nat, coeffs.len()), v);
}

/// With a modulus and initial values that lie from 0 up to, not including,
/// the modulus, every term of a generated prefix lies there too.
pub proof fn lemma_prefix_in_range(init: Seq<int>, coeffs: Seq<int>, v: int, steps: nat)
    requires
        init.len() == coeffs.len(),
        v > 0,
        forall|i: int| 0 <= i < init.len() ==> 0 <= #[trigger] init[i] < v,
    ensures
        forall|i: int|
            0 <= i < init.len() + steps ==> 0 <= #[trigger] extend(init, coeffs, Some(v), steps)[i]
                < v,
{
    let s = extend(init, coeffs, Some(v), steps);
    assert forall|i: int| 0 <= i < init.len() + steps implies 0 <= #[trigger] s[i] < v by {
        if i < init.len() {
            lemma_extend_index(init, coeffs, Some(v), steps, i as nat);
        } else {
            lemma_generated_in_range(init, coeffs, v, steps, i);
        }
    }
}

/// The sequence that starts 1, 1 and adds the two terms before is the
/// Fibonacci sequence from its first term on.
pub proof fn lemma_canonical_term_is_fib(i: nat)
    ensures
        term_at(seq![1int, 1int], seq![1int, 1int], None, i) == fib(i + 1),
    decreases i,
{
    let one = seq![1int, 1int];
    if i < 2 {
        assert(fib(2) == fib(1) + fib(0));
    } else {
        lemma_canonical_term_is_fib((i - 1) as nat);
        lemma_canonical_term_is_fib((i - 2) as nat);
        lemma_term_recurrence(one, one, None, i);
        assert(back_sum(one, one, None, i, 2) == back_sum(one, one, None, i, 1) + one[1] * term_at(
            one,
            one,
            None,
            (i - 2) as nat,
        ));
        assert(back_sum(one, one, None, i, 1) == back_sum(one, one, None, i, 0) + one[0] * term_at(
            one,
            one,
            None,
            (i - 1) as nat,
        ));
    }
}

/// Fast doubling and the matrix method agree: for the recurrence with
/// coefficients 1, 1, initial values 1, 1 and no modulus, the term at `n`,
/// counted from 1, is the Fibonacci number at `n`.
pub proof fn lemma_fast_doubling_agrees(n: nat)
    requires
        n >= 1,
    ensures
        nth_value(seq![1int, 1int], seq![1int, 1int], None, n) == fib(n),
{
    lemma_canonical_term_is_fib((n - 1) as nat);
}

} // verus!
