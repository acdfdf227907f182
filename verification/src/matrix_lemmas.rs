//! Algebra of square integer matrices: the identity, associativity of the
//! product, the laws of powers, and compatibility of all of them with
//! reduction modulo a positive integer.

use crate::matrix::{
    dot, identity, is_square, mat_power, mat_prod, mat_reduce, reduce, valid_modulus,
};
use vstd::arithmetic::div_mod::{lemma_add_mod_noop, lemma_mod_twice, lemma_mul_mod_noop_general};
use vstd::prelude::*;

verus! {

/// Every power of a matrix is square, of the size of the matrix.
pub proof fn lemma_power_square(m: Seq<Seq<int>>, e: nat)
    ensures
        is_square(mat_power(m, e), m.len()),
    decreases e,
{
    if e > 0 {
        lemma_power_square(m, (e - 1) as nat);
    }
}

proof fn lemma_dot_identity_left(b: Seq<Seq<int>>, k: nat, i: int, j: int, n: nat)
    requires
        0 <= i < k,
        n <= k,
    ensures
        dot(identity(k), b, i, j, n) == if i < n {
            b[i][j]
        } else {
            0
        },
    decreases n,
{
    if n > 0 {
        lemma_dot_identity_left(b, k, i, j, (n - 1) as nat);
    }
}

proof fn lemma_dot_identity_right(a: Seq<Seq<int>>, k: nat, i: int, j: int, n: nat)
    requires
        0 <= j < k,
        n <= k,
    ensures
        dot(a, identity(k), i, j, n) == if j < n {
            a[i][j]
        } else {
            0
        },
    decreases n,
{
    if n > 0 {
        lemma_dot_identity_right(a, k, i, j, (n - 1) as nat);
    }
}

/// The identity is neutral on the left.
pub proof fn lemma_identity_left(b: Seq<Seq<int>>, k: nat)
    requires
        is_square(b, k),
    ensures
        mat_prod(identity(k), b) == b,
{
    let p = mat_prod(identity(k), b);
    assert forall|i: int| 0 <= i < k implies #[trigger] p[i] == b[i] by {
        assert forall|j: int| 0 <= j < k implies #[trigger] p[i][j] == b[i][j] by {
            lemma_dot_identity_left(b, k, i, j, k);
        }
    }
}

/// The identity is neutral on the right.
pub proof fn lemma_identity_right(a: Seq<Seq<int>>, k: nat)
    requires
        is_square(a, k),
    ensures
        mat_prod(a, identity(k)) == a,
{
    let p = mat_prod(a, identity(k));
    assert forall|i: int| 0 <= i < k implies #[trigger] p[i] == a[i] by {
        assert forall|j: int| 0 <= j < k implies #[trigger] p[i][j] == a[i][j] by {
            lemma_dot_identity_right(a, k, i, j, k);
        }
    }
}

/// The sum over `r` below `q` of `a[i][r]` times the partial dot product of
/// row `r` of `b` with column `j` of `c`, taken over the first `p` terms.
spec fn dot_right(
    a: Seq<Seq<int>>,
    b: Seq<Seq<int>>,
    c: Seq<Seq<int>>,
    i: int,
    j: int,
    p: nat,
    q: nat,
) -> int
    decreases q,
{
    if q == 0 {
        0
    } else {
        dot_right(a, b, c, i, j, p, (q - 1) as nat) + a[i][q - 1] * dot(b, c, q - 1, j, p)
    }
}

proof fn lemma_dot_right_zero(
    a: Seq<Seq<int>>,
    b: Seq<Seq<int>>,
    c: Seq<Seq<int>>,
    i: int,
    j: int,
    q: nat,
)
    ensures
        dot_right(a, b, c, i, j, 0, q) == 0,
    decreases q,
{
    if q > 0 {
        lemma_dot_right_zero(a, b, c, i, j, (q - 1) as nat);
    }
}

proof fn lemma_dot_right_step(
    a: Seq<Seq<int>>,
    b: Seq<Seq<int>>,
    c: Seq<Seq<int>>,
    i: int,
    j: int,
    p: nat,
    q: nat,
)
    ensures
        dot_right(a, b, c, i, j, p + 1, q) == dot_right(a, b, c, i, j, p, q) + dot(
            a,
            b,
            i,
            p as int,
            q,
        ) * c[p as int][j],
    decreases q,
{
    if q > 0 {
        let q1 = (q - 1) as nat;
        lemma_dot_right_step(a, b, c, i, j, p, q1);
        let x = a[i][q - 1];
        let d = dot(b, c, q - 1, j, p);
        let y = b[q - 1][p as int];
        let z = c[p as int][j];
        let e = dot(a, b, i, p as int, q1);
        assert(x * (d + y * z) + e * z == x * d + (e + x * y) * z) by (nonlinear_arith);
    }
}

proof fn lemma_dot_prod_left(
    a: Seq<Seq<int>>,
    b: Seq<Seq<int>>,
    c: Seq<Seq<int>>,
    i: int,
    j: int,
    p: nat,
)
    requires
        0 <= i < a.len(),
        p <= a.len(),
    ensures
        dot(mat_prod(a, b), c, i, j, p) == dot_right(a, b, c, i, j, p, a.len()),
    decreases p,
{
    if p == 0 {
        lemma_dot_right_zero(a, b, c, i, j, a.len());
    } else {
        let p1 = (p - 1) as nat;
        lemma_dot_prod_left(a, b, c, i, j, p1);
        lemma_dot_right_step(a, b, c, i, j, p1, a.len());
    }
}

proof fn lemma_dot_prod_right(
    a: Seq<Seq<int>>,
    b: Seq<Seq<int>>,
    c: Seq<Seq<int>>,
    i: int,
    j: int,
    q: nat,
)
    requires
        0 <= j < b.len(),
        q <= b.len(),
    ensures
        dot(a, mat_prod(b, c), i, j, q) == dot_right(a, b, c, i, j, b.len(), q),
    decreases q,
{
    if q > 0 {
        let q1 = (q - 1) as nat;
        lemma_dot_prod_right(a, b, c, i, j, q1);
    }
}

/// The matrix product is associative.
pub proof fn lemma_prod_assoc(a: Seq<Seq<int>>, b: Seq<Seq<int>>, c: Seq<Seq<int>>)
    requires
        a.len() == b.len(),
    ensures
        mat_prod(mat_prod(a, b), c) == mat_prod(a, mat_prod(b, c)),
{
    let k = a.len();
    let l = mat_prod(mat_prod(a, b), c);
    let r = mat_prod(a, mat_prod(b, c));
    assert forall|i: int| 0 <= i < k implies #[trigger] l[i] == r[i] by {
        assert forall|j: int| 0 <= j < k implies #[trigger] l[i][j] == r[i][j] by {
            lemma_dot_prod_left(a, b, c, i, j, k);
            lemma_dot_prod_right(a, b, c, i, j, k);
        }
    }
}

/// Exponents add: the power `x + y` is the product of the powers `x` and `y`.
pub proof fn lemma_power_add(m: Seq<Seq<int>>, x: nat, y: nat)
    ensures
        mat_power(m, x + y) == mat_prod(mat_power(m, x), mat_power(m, y)),
    decreases x,
{
    if x == 0 {
        lemma_power_square(m, y);
        lemma_identity_left(mat_power(m, y), m.len());
    } else {
        let x1 = (x - 1) as nat;
        lemma_power_add(m, x1, y);
        lemma_power_square(m, x1);
        lemma_prod_assoc(m, mat_power(m, x1), mat_power(m, y));
    }
}

/// The first power of a square matrix is the matrix.
pub proof fn lemma_power_one(m: Seq<Seq<int>>)
    requires
        is_square(m, m.len()),
    ensures
        mat_power(m, 1) == m,
{
    assert(mat_power(m, 1) == mat_prod(m, mat_power(m, 0)));
    lemma_identity_right(m, m.len());
}

/// A power of the square of a matrix is the matrix to twice that power.
pub proof fn lemma_power_of_square(m: Seq<Seq<int>>, h: nat)
    requires
        is_square(m, m.len()),
    ensures
        mat_power(mat_prod(m, m), h) == mat_power(m, 2 * h),
    decreases h,
{
    if h > 0 {
        let h1 = (h - 1) as nat;
        lemma_power_of_square(m, h1);
        lemma_power_one(m);
        lemma_power_add(m, 1, 1);
        lemma_power_add(m, 2, 2 * h1);
        assert(mat_power(mat_prod(m, m), h) == mat_prod(
            mat_prod(m, m),
            mat_power(mat_prod(m, m), h1),
        ));
    }
}

/// Reducing twice is reducing once.
pub proof fn lemma_reduce_idempotent(a: Seq<Seq<int>>, m: Option<int>)
    requires
        valid_modulus(m),
    ensures
        mat_reduce(mat_reduce(a, m), m) == mat_reduce(a, m),
{
    let r = mat_reduce(a, m);
    let rr = mat_reduce(r, m);
    assert forall|i: int| 0 <= i < a.len() implies #[trigger] rr[i] == r[i] by {
        assert forall|j: int| 0 <= j < a[i].len() implies #[trigger] rr[i][j] == r[i][j] by {
            if let Some(v) = m {
                lemma_mod_twice(a[i][j], v);
            }
        }
    }
}

/// Dot products of rows and columns that agree after reduction agree after
/// reduction.
pub proof fn lemma_dot_congruent(
    a: Seq<Seq<int>>,
    a2: Seq<Seq<int>>,
    b: Seq<Seq<int>>,
    b2: Seq<Seq<int>>,
    i: int,
    j: int,
    n: nat,
    m: Option<int>,
)
    requires
        valid_modulus(m),
        forall|l: int| 0 <= l < n ==> reduce(#[trigger] a[i][l], m) == reduce(a2[i][l], m),
        forall|l: int| 0 <= l < n ==> reduce(#[trigger] b[l][j], m) == reduce(b2[l][j], m),
    ensures
        reduce(dot(a, b, i, j, n), m) == reduce(dot(a2, b2, i, j, n), m),
    decreases n,
{
    if n > 0 {
        let n1 = (n - 1) as nat;
        lemma_dot_congruent(a, a2, b, b2, i, j, n1, m);
        if let Some(v) = m {
            let x = a[i][n - 1];
            let y = b[n - 1][j];
            let x2 = a2[i][n - 1];
            let y2 = b2[n - 1][j];
            lemma_mul_mod_noop_general(x, y, v);
            lemma_mul_mod_noop_general(x2, y2, v);
            lemma_add_mod_noop(dot(a, b, i, j, n1), x * y, v);
            lemma_add_mod_noop(dot(a2, b2, i, j, n1), x2 * y2, v);
        }
    }
}

/// Products of matrices that agree after reduction agree after reduction.
pub proof fn lemma_prod_congruent(
    a: Seq<Seq<int>>,
    a2: Seq<Seq<int>>,
    b: Seq<Seq<int>>,
    b2: Seq<Seq<int>>,
    k: nat,
    m: Option<int>,
)
    requires
        valid_modulus(m),
        is_square(a, k),
        is_square(a2, k),
        is_square(b, k),
        is_square(b2, k),
        mat_reduce(a, m) == mat_reduce(a2, m),
        mat_reduce(b, m) == mat_reduce(b2, m),
    ensures
        mat_reduce(mat_prod(a, b), m) == mat_reduce(mat_prod(a2, b2), m),
{
    let l = mat_reduce(mat_prod(a, b), m);
    let r = mat_reduce(mat_prod(a2, b2), m);
    assert forall|i: int, j: int| 0 <= i < k && 0 <= j < k implies reduce(a[i][j], m) == reduce(
        a2[i][j],
        m,
    ) by {
        assert(mat_reduce(a, m)[i][j] == reduce(a[i][j], m));
        assert(mat_reduce(a2, m)[i][j] == reduce(a2[i][j], m));
    }
    assert forall|i: int, j: int| 0 <= i < k && 0 <= j < k implies reduce(b[i][j], m) == reduce(
        b2[i][j],
        m,
    ) by {
        assert(mat_reduce(b, m)[i][j] == reduce(b[i][j], m));
        assert(mat_reduce(b2, m)[i][j] == reduce(b2[i][j], m));
    }
    assert forall|i: int| 0 <= i < k implies #[trigger] l[i] == r[i] by {
        assert forall|j: int| 0 <= j < k implies #[trigger] l[i][j] == r[i][j] by {
            lemma_dot_congruent(a, a2, b, b2, i, j, k, m);
        }
    }
}

/// Powers of matrices that agree after reduction agree after reduction.
pub proof fn lemma_power_congruent(a: Seq<Seq<int>>, a2: Seq<Seq<int>>, e: nat, m: Option<int>)
    requires
        valid_modulus(m),
        is_square(a, a.len()),
        is_square(a2, a.len()),
        mat_reduce(a, m) == mat_reduce(a2, m),
    ensures
        mat_reduce(mat_power(a, e), m) == mat_reduce(mat_power(a2, e), m),
    decreases e,
{
    if e > 0 {
        let e1 = (e - 1) as nat;
        lemma_power_congruent(a, a2, e1, m);
        lemma_power_square(a, e1);
        lemma_power_square(a2, e1);
        lemma_prod_congruent(a, a2, mat_power(a, e1), mat_power(a2, e1), a.len(), m);
    }
}

} // verus!
