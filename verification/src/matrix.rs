//! Square matrices of big integers: the companion matrix of a recurrence,
//! the matrix product and the matrix power, each optionally reduced modulo a
//! positive integer.

use crate::bigint::{
    big_add, big_from_i64, big_mul, big_one, big_rem_euclid, big_zero, int_of, values,
};
use crate::matrix_lemmas::{
    lemma_identity_left, lemma_identity_right, lemma_power_congruent, lemma_power_of_square,
    lemma_power_square, lemma_prod_assoc, lemma_prod_congruent, lemma_reduce_idempotent,
};
use ibig::IBig;
use vstd::arithmetic::div_mod::{lemma_add_mod_noop, lemma_small_mod};
use vstd::prelude::*;

verus! {

/// The integer entries of a matrix of big integers, row by row.
pub open spec fn entries(m: Seq<Vec<IBig>>) -> Seq<Seq<int>> {
    Seq::new(m.len(), |i: int| values(m[i]@))
}

/// A matrix with `k` rows of `k` entries each.
pub open spec fn is_square(m: Seq<Seq<int>>, k: nat) -> bool {
    &&& m.len() == k
    &&& forall|i: int| 0 <= i < k ==> (#[trigger] m[i]).len() == k
}

/// The integer held by an optional big modulus.
pub open spec fn modulus_of(m: Option<IBig>) -> Option<int> {
    match m {
        Some(v) => Some(int_of(v)),
        None => None,
    }
}

/// A modulus, where there is one, is positive.
pub open spec fn valid_modulus(m: Option<int>) -> bool {
    match m {
        Some(v) => v > 0,
        None => true,
    }
}

/// `x` reduced to its least non-negative residue, or `x` itself without a
/// modulus.
pub open spec fn reduce(x: int, m: Option<int>) -> int {
    match m {
        Some(v) => x % v,
        None => x,
    }
}

/// The sum of `a[i][l] * b[l][j]` over `l` below `n`.
pub open spec fn dot(a: Seq<Seq<int>>, b: Seq<Seq<int>>, i: int, j: int, n: nat) -> int
    decreases n,
{
    if n == 0 {
        0
    } else {
        dot(a, b, i, j, (n - 1) as nat) + a[i][n - 1] * b[n - 1][j]
    }
}

/// The product of two square matrices of the size of `a`.
pub open spec fn mat_prod(a: Seq<Seq<int>>, b: Seq<Seq<int>>) -> Seq<Seq<int>> {
    Seq::new(a.len(), |i: int| Seq::new(a.len(), |j: int| dot(a, b, i, j, a.len())))
}

/// The matrix with every entry reduced.
pub open spec fn mat_reduce(a: Seq<Seq<int>>, m: Option<int>) -> Seq<Seq<int>> {
    Seq::new(a.len(), |i: int| Seq::new(a[i].len(), |j: int| reduce(a[i][j], m)))
}

/// The `k` by `k` identity matrix.
pub open spec fn identity(k: nat) -> Seq<Seq<int>> {
    Seq::new(k, |i: int| Seq::new(k, |j: int| if i == j { 1int } else { 0int }))
}

/// The `e`-th power of a square matrix; the power 0 is the identity.
pub open spec fn mat_power(m: Seq<Seq<int>>, e: nat) -> Seq<Seq<int>>
    decreases e,
{
    if e == 0 {
        identity(m.len())
    } else {
        mat_prod(m, mat_power(m, (e - 1) as nat))
    }
}

/// The companion matrix of a recurrence: the coefficients in row 0, ones
/// just below the diagonal, zeros elsewhere.
pub open spec fn companion(coeffs: Seq<int>) -> Seq<Seq<int>> {
    Seq::new(
        coeffs.len(),
        |i: int|
            Seq::new(
                coeffs.len(),
                |j: int|
                    if i == 0 {
                        coeffs[j]
                    } else if j + 1 == i {
                        1int
                    } else {
                        0int
                    },
            ),
    )
}

/// Machine coefficients as mathematical integers.
pub open spec fn ints(coeffs: Seq<i64>) -> Seq<int> {
    Seq::new(coeffs.len(), |i: int| coeffs[i] as int)
}

/// Builds the companion matrix of the recurrence with the given
/// coefficients, of which there is at least one.
pub fn build_matrix(coeffs: &[i64]) -> (mat: Vec<Vec<IBig>>)
    requires
        coeffs.len() >= 1,
    ensures
        entries(mat@) == companion(ints(coeffs@)),
        is_square(entries(mat@), coeffs.len() as nat),
        mat.len() == coeffs.len(),
{
    let k = coeffs.len();
    let mut mat: Vec<Vec<IBig>> = Vec::new();
    let mut i: usize = 0;
    while i < k
        invariant
            i <= k,
            k == coeffs.len(),
            mat.len() == i,
            forall|r: int| 0 <= r < i ==> values(#[trigger] mat[r]@) == companion(ints(coeffs@))[r],
        decreases k - i,
    {
        let mut row: Vec<IBig> = Vec::new();
        let mut j: usize = 0;
        while j < k
            invariant
                j <= k,
                i < k,
                k == coeffs.len(),
                row.len() == j,
                forall|c: int|
                    0 <= c < j ==> int_of(#[trigger] row[c]) == companion(
                        ints(coeffs@),
                    )[i as int][c],
            decreases k - j,
        {
            let cell = if i == 0 {
                big_from_i64(coeffs[j])
            } else if j + 1 == i {
                big_one()
            } else {
                big_zero()
            };
            row.push(cell);
            j += 1;
        }
        mat.push(row);
        i += 1;
    }
    mat
}

/// Multiplies two square matrices of the same size. With a modulus, every
/// product and every partial sum is reduced as soon as it is formed, so no
/// intermediate value grows beyond the square of the modulus.
pub fn mat_mul(a: &Vec<Vec<IBig>>, b: &Vec<Vec<IBig>>, mod_x: &Option<IBig>) -> (result: Vec<
    Vec<IBig>,
>)
    requires
        is_square(entries(a@), a.len() as nat),
        is_square(entries(b@), a.len() as nat),
        valid_modulus(modulus_of(*mod_x)),
    ensures
        entries(result@) == mat_reduce(
            mat_prod(entries(a@), entries(b@)),
            modulus_of(*mod_x),
        ),
        is_square(entries(result@), a.len() as nat),
        result.len() == a.len(),
{
    let k = a.len();
    let ghost ea = entries(a@);
    let ghost eb = entries(b@);
    let ghost m = modulus_of(*mod_x);
    let ghost target = mat_reduce(mat_prod(ea, eb), m);
    let mut result: Vec<Vec<IBig>> = Vec::new();
    let mut i: usize = 0;
    while i < k
        invariant
            i <= k,
            k == a.len(),
            ea == entries(a@),
            eb == entries(b@),
            m == modulus_of(*mod_x),
            valid_modulus(m),
            is_square(ea, k as nat),
            is_square(eb, k as nat),
            target == mat_reduce(mat_prod(ea, eb), m),
            result.len() == i,
            forall|r: int| 0 <= r < i ==> values(#[trigger] result[r]@) == target[r],
        decreases k - i,
    {
        let mut row: Vec<IBig> = Vec::new();
        let mut j: usize = 0;
        while j < k
            invariant
                j <= k,
                i < k,
                k == a.len(),
                ea == entries(a@),
                eb == entries(b@),
                m == modulus_of(*mod_x),
                valid_modulus(m),
                is_square(ea, k as nat),
                is_square(eb, k as nat),
                row.len() == j,
                forall|c: int|
                    0 <= c < j ==> int_of(#[trigger] row[c]) == reduce(
                        dot(ea, eb, i as int, c, k as nat),
                        m,
                    ),
            decreases k - j,
        {
            let mut sum = big_zero();
            let mut l: usize = 0;
            while l < k
                invariant
                    l <= k,
                    i < k,
                    j < k,
                    k == a.len(),
                    ea == entries(a@),
                    eb == entries(b@),
                    m == modulus_of(*mod_x),
                    valid_modulus(m),
                    is_square(ea, k as nat),
                    is_square(eb, k as nat),
                    l == 0 ==> int_of(sum) == 0,
                    l > 0 ==> int_of(sum) == reduce(dot(ea, eb, i as int, j as int, l as nat), m),
                decreases k - l,
            {
                assert(ea[i as int].len() == k && eb[l as int].len() == k);
                let mut prod = big_mul(&a[i][l], &b[l][j]);
                if let Some(md) = mod_x {
                    prod = big_rem_euclid(&prod, md);
                }
                sum = big_add(&sum, &prod);
                if let Some(md) = mod_x {
                    sum = big_rem_euclid(&sum, md);
                }
                proof {
                    let d = dot(ea, eb, i as int, j as int, l as nat);
                    let p = ea[i as int][l as int] * eb[l as int][j as int];
                    if let Some(v) = m {
                        lemma_add_mod_noop(d, p, v);
                        lemma_small_mod(0, v as nat);
                    }
                }
                l += 1;
            }
            row.push(sum);
            j += 1;
        }
        result.push(row);
        i += 1;
    }
    result
}

/// The `k` by `k` identity matrix.
fn identity_matrix(k: usize) -> (mat: Vec<Vec<IBig>>)
    ensures
        entries(mat@) == identity(k as nat),
{
    let mut mat: Vec<Vec<IBig>> = Vec::new();
    let mut i: usize = 0;
    while i < k
        invariant
            i <= k,
            mat.len() == i,
            forall|r: int| 0 <= r < i ==> values(#[trigger] mat[r]@) == identity(k as nat)[r],
        decreases k - i,
    {
        let mut row: Vec<IBig> = Vec::new();
        let mut j: usize = 0;
        while j < k
            invariant
                j <= k,
                i < k,
                row.len() == j,
                forall|c: int|
                    0 <= c < j ==> int_of(#[trigger] row[c]) == identity(k as nat)[i as int][c],
            decreases k - j,
        {
            let cell = if i == j {
                big_one()
            } else {
                big_zero()
            };
            row.push(cell);
            j += 1;
        }
        mat.push(row);
        i += 1;
    }
    mat
}

/// Raises a square matrix to a power by repeated squaring. The power 0 is
/// the identity, whatever the base and the modulus; every other power has
/// each entry reduced.
pub fn mat_pow(base: Vec<Vec<IBig>>, exp: u128, mod_x: Option<IBig>) -> (result: Vec<Vec<IBig>>)
    requires
        is_square(entries(base@), base.len() as nat),
        valid_modulus(modulus_of(mod_x)),
    ensures
        entries(result@) == if exp == 0 {
            identity(base.len() as nat)
        } else {
            mat_reduce(mat_power(entries(base@), exp as nat), modulus_of(mod_x))
        },
        is_square(entries(result@), base.len() as nat),
        result.len() == base.len(),
{
    let k = base.len();
    let ghost b0 = entries(base@);
    let ghost e0 = exp as nat;
    let ghost m = modulus_of(mod_x);
    let mut base = base;
    let mut exp = exp;
    let mut result = identity_matrix(k);
    proof {
        lemma_power_square(b0, e0);
        lemma_identity_left(mat_power(b0, e0), k as nat);
    }
    while exp > 0
        invariant
            exp <= e0,
            m == modulus_of(mod_x),
            valid_modulus(m),
            is_square(b0, k as nat),
            is_square(entries(base@), k as nat),
            is_square(entries(result@), k as nat),
            base.len() == k,
            result.len() == k,
            mat_reduce(mat_prod(entries(result@), mat_power(entries(base@), exp as nat)), m)
                == mat_reduce(mat_power(b0, e0), m),
            e0 == 0 ==> entries(result@) == identity(k as nat),
            e0 == 0 || (exp > 0 && entries(result@) == identity(k as nat)) || mat_reduce(
                entries(result@),
                m,
            ) == entries(result@),
        decreases exp,
    {
        let ghost r = entries(result@);
        let ghost b = entries(base@);
        let ghost h = (exp / 2) as nat;
        let odd = exp % 2 == 1;
        if odd {
            result = mat_mul(&result, &base, &mod_x);
        }
        base = mat_mul(&base, &base, &mod_x);
        exp /= 2;
        proof {
            let r2 = entries(result@);
            let b2 = entries(base@);
            let bb = mat_prod(b, b);
            lemma_reduce_idempotent(bb, m);
            lemma_power_congruent(b2, bb, h, m);
            lemma_power_of_square(b, h);
            lemma_power_square(b2, h);
            lemma_power_square(b, 2 * h);
            if odd {
                let rb = mat_prod(r, b);
                lemma_reduce_idempotent(rb, m);
                lemma_prod_congruent(r2, rb, mat_power(b2, h), mat_power(b, 2 * h), k as nat, m);
                lemma_prod_assoc(r, b, mat_power(b, 2 * h));
            } else {
                lemma_prod_congruent(r, r, mat_power(b2, h), mat_power(b, 2 * h), k as nat, m);
            }
        }
    }
    proof {
        lemma_identity_right(entries(result@), k as nat);
    }
    result
}

} // verus!
