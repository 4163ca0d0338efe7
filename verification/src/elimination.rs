//! Why elimination inverts: what the row operations keep.
//!
//! Gauss-Jordan elimination works on a pair of matrices: `a`, which starts as
//! the matrix `m` to invert, and `b`, which starts as the identity. Every row
//! operation is done to both. Three things stay true all along: `b * m` is
//! `a`; `b` has an inverse; and the columns that have been dealt with are
//! columns of the identity. So when every column has been dealt with, `b` is
//! the inverse of `m`; and when a column has no pivot, a vector is at hand
//! that `m` sends to zero.
use vstd::prelude::*;
use crate::inverse::{
    Elimination, first_pivot, inverse_pair, is_zero, kernel_column, kernel_vector, lemma_mul_zero,
    q_cleared, q_eliminated, q_reduced, q_scaled, swapped,
};
use crate::real_matrix::{
    column, identity, lemma_mul_assoc, lemma_mul_identity_left, lemma_mul_identity_right,
    lemma_mul_shape, lemma_sum_ext, lemma_sum_same_but_two, lemma_sum_scale, lemma_sum_sub,
    lemma_sum_zero, mat_mul, shaped, sum,
};

verus! {

/// `row` with every entry divided by `pivot`.
pub open spec fn row_scaled(row: Seq<real>, pivot: real) -> Seq<real> {
    Seq::new(row.len(), |j: int| row[j] / pivot)
}

/// The row `target - factor * source`.
pub open spec fn row_reduced(target: Seq<real>, source: Seq<real>, factor: real) -> Seq<real> {
    Seq::new(target.len(), |j: int| target[j] - factor * source[j])
}

/// `e` with columns `c` and `p` exchanged.
pub open spec fn columns_swapped(e: Seq<Seq<real>>, c: int, p: int) -> Seq<Seq<real>> {
    Seq::new(e.len(), |i: int| e[i].update(c, e[i][p]).update(p, e[i][c]))
}

/// `e` with column `c` multiplied by `s`.
pub open spec fn column_scaled(e: Seq<Seq<real>>, c: int, s: real) -> Seq<Seq<real>> {
    Seq::new(e.len(), |i: int| e[i].update(c, e[i][c] * s))
}

/// `e` with `f` times column `r` added to column `c`.
pub open spec fn column_added(e: Seq<Seq<real>>, c: int, r: int, f: real) -> Seq<Seq<real>> {
    Seq::new(e.len(), |i: int| e[i].update(c, e[i][c] + f * e[i][r]))
}

/// The columns of `a` before column `c` are columns of the identity.
pub open spec fn reduced_upto(a: Seq<Seq<real>>, c: int, n: int) -> bool {
    forall|i: int, j: int|
        0 <= i < n && 0 <= j < c ==> #[trigger] a[i][j] == (if i == j {
            1real
        } else {
            0real
        })
}

/// Exchanging two rows of the left factor exchanges them in the product.
pub proof fn lemma_product_swapped(x: Seq<Seq<real>>, m: Seq<Seq<real>>, c: int, p: int, n: nat)
    requires
        shaped(x, n, n),
        shaped(m, n, n),
        0 <= c < n,
        0 <= p < n,
    ensures
        mat_mul(swapped(x, c, p), m) == swapped(mat_mul(x, m), c, p),
        shaped(swapped(x, c, p), n, n),
{
    let l = mat_mul(swapped(x, c, p), m);
    let r = swapped(mat_mul(x, m), c, p);
    assert(l.len() == r.len());
    assert forall|i: int| 0 <= i < n implies #[trigger] l[i] =~= r[i] by {}
    assert(l =~= r);
}

/// Dividing a row of the left factor divides that row of the product.
pub proof fn lemma_product_scaled(x: Seq<Seq<real>>, m: Seq<Seq<real>>, c: int, pivot: real, n: nat)
    requires
        shaped(x, n, n),
        shaped(m, n, n),
        0 <= c < n,
        pivot != 0real,
    ensures
        mat_mul(x.update(c, row_scaled(x[c], pivot)), m) == mat_mul(x, m).update(
            c,
            row_scaled(mat_mul(x, m)[c], pivot),
        ),
        shaped(x.update(c, row_scaled(x[c], pivot)), n, n),
{
    let x2 = x.update(c, row_scaled(x[c], pivot));
    let prod = mat_mul(x, m);
    let l = mat_mul(x2, m);
    let r = prod.update(c, row_scaled(prod[c], pivot));
    assert(l.len() == r.len());
    assert forall|i: int| 0 <= i < n implies #[trigger] l[i] =~= r[i] by {
        if i == c {
            assert forall|j: int| 0 <= j < n implies l[i][j] == r[i][j] by {
                let f = |k: int| x[c][k] * column(m, j)[k];
                let g = |k: int| x2[c][k] * column(m, j)[k];
                let s = 1real / pivot;
                assert forall|k: int| 0 <= k < n implies #[trigger] g(k) == s * f(k) by {
                    assert(x2[c][k] == x[c][k] / pivot);
                    assert((x[c][k] / pivot) * column(m, j)[k] == (1real / pivot) * (x[c][k]
                        * column(m, j)[k])) by (nonlinear_arith)
                        requires
                            pivot != 0real,
                    ;
                }
                lemma_sum_scale(n, s, f, g);
                assert(prod[c][j] == sum(n, f));
                assert(l[c][j] == sum(n, g));
                assert((1real / pivot) * sum(n, f) == sum(n, f) / pivot) by (nonlinear_arith)
                    requires
                        pivot != 0real,
                ;
            }
        }
    }
    assert(l =~= r);
}

/// Taking a multiple of one row off another in the left factor does the
/// same to the product.
pub proof fn lemma_product_reduced(
    x: Seq<Seq<real>>,
    m: Seq<Seq<real>>,
    r: int,
    c: int,
    factor: real,
    n: nat,
)
    requires
        shaped(x, n, n),
        shaped(m, n, n),
        0 <= c < n,
        0 <= r < n,
    ensures
        mat_mul(x.update(r, row_reduced(x[r], x[c], factor)), m) == mat_mul(x, m).update(
            r,
            row_reduced(mat_mul(x, m)[r], mat_mul(x, m)[c], factor),
        ),
        shaped(x.update(r, row_reduced(x[r], x[c], factor)), n, n),
{
    let x2 = x.update(r, row_reduced(x[r], x[c], factor));
    let prod = mat_mul(x, m);
    let l = mat_mul(x2, m);
    let want = prod.update(r, row_reduced(prod[r], prod[c], factor));
    assert(l.len() == want.len());
    assert forall|i: int| 0 <= i < n implies #[trigger] l[i] =~= want[i] by {
        if i == r {
            assert forall|j: int| 0 <= j < n implies l[i][j] == want[i][j] by {
                let f = |k: int| x[r][k] * column(m, j)[k];
                let g = |k: int| x[c][k] * column(m, j)[k];
                let fg = |k: int| factor * g(k);
                let h = |k: int| x2[r][k] * column(m, j)[k];
                assert forall|k: int| 0 <= k < n implies #[trigger] h(k) == f(k) - fg(k) by {
                    assert(x2[r][k] == x[r][k] - factor * x[c][k]);
                    assert((x[r][k] - factor * x[c][k]) * column(m, j)[k] == x[r][k] * column(
                        m,
                        j,
                    )[k] - factor * (x[c][k] * column(m, j)[k])) by (nonlinear_arith);
                }
                lemma_sum_sub(n, f, fg, h);
                lemma_sum_scale(n, factor, g, fg);
                assert(prod[r][j] == sum(n, f));
                assert(prod[c][j] == sum(n, g));
                assert(l[r][j] == sum(n, h));
            }
        }
    }
    assert(l =~= want);
}

/// Exchanging two columns of the left factor and the same two rows of the
/// right factor leaves the product as it is.
pub proof fn lemma_swap_cancels(e: Seq<Seq<real>>, b: Seq<Seq<real>>, c: int, p: int, n: nat)
    requires
        shaped(e, n, n),
        shaped(b, n, n),
        0 <= c < n,
        0 <= p < n,
    ensures
        mat_mul(columns_swapped(e, c, p), swapped(b, c, p)) == mat_mul(e, b),
        shaped(columns_swapped(e, c, p), n, n),
{
    let e2 = columns_swapped(e, c, p);
    let b2 = swapped(b, c, p);
    let l = mat_mul(e2, b2);
    let r = mat_mul(e, b);
    assert(shaped(b2, n, n));
    assert(shaped(e2, n, n)) by {
        assert forall|i: int| 0 <= i < n implies (#[trigger] e2[i]).len() == n by {}
    }
    assert forall|i: int| 0 <= i < n implies #[trigger] l[i] =~= r[i] by {
        assert forall|j: int| 0 <= j < n implies l[i][j] == r[i][j] by {
            let f = |k: int| e[i][k] * column(b, j)[k];
            let g = |k: int| e2[i][k] * column(b2, j)[k];
            if c == p {
                assert forall|k: int| 0 <= k < n implies #[trigger] g(k) == f(k) by {}
                lemma_sum_ext(n, g, f);
            } else {
                assert(g(c) == f(p));
                assert(g(p) == f(c));
                assert forall|k: int| 0 <= k < n && k != c && k != p implies #[trigger] g(k)
                    == f(k) by {}
                lemma_sum_same_but_two(n, f, g, c, p);
            }
            assert(l[i][j] == sum(n, g));
            assert(r[i][j] == sum(n, f));
        }
    }
    assert(l =~= r);
}

/// Multiplying a column of the left factor by what a row of the right factor
/// is divided by leaves the product as it is.
pub proof fn lemma_scale_cancels(e: Seq<Seq<real>>, b: Seq<Seq<real>>, c: int, pivot: real, n: nat)
    requires
        shaped(e, n, n),
        shaped(b, n, n),
        0 <= c < n,
        pivot != 0real,
    ensures
        mat_mul(column_scaled(e, c, pivot), b.update(c, row_scaled(b[c], pivot))) == mat_mul(e, b),
        shaped(column_scaled(e, c, pivot), n, n),
{
    let e2 = column_scaled(e, c, pivot);
    let b2 = b.update(c, row_scaled(b[c], pivot));
    let l = mat_mul(e2, b2);
    let r = mat_mul(e, b);
    assert(shaped(b2, n, n));
    assert(shaped(e2, n, n)) by {
        assert forall|i: int| 0 <= i < n implies (#[trigger] e2[i]).len() == n by {}
    }
    assert forall|i: int| 0 <= i < n implies #[trigger] l[i] =~= r[i] by {
        assert forall|j: int| 0 <= j < n implies l[i][j] == r[i][j] by {
            let f = |k: int| e[i][k] * column(b, j)[k];
            let g = |k: int| e2[i][k] * column(b2, j)[k];
            assert forall|k: int| 0 <= k < n implies #[trigger] g(k) == f(k) by {
                if k == c {
                    assert(e2[i][c] == e[i][c] * pivot);
                    assert(column(b2, j)[c] == b[c][j] / pivot);
                    assert((e[i][c] * pivot) * (b[c][j] / pivot) == e[i][c] * b[c][j])
                        by (nonlinear_arith)
                        requires
                            pivot != 0real,
                    ;
                }
            }
            lemma_sum_ext(n, g, f);
            assert(l[i][j] == sum(n, g));
            assert(r[i][j] == sum(n, f));
        }
    }
    assert(l =~= r);
}

/// Adding to column `c` of the left factor the multiple of column `r` that
/// was taken off row `r` of the right factor in multiples of row `c` leaves
/// the product as it is.
pub proof fn lemma_reduce_cancels(
    e: Seq<Seq<real>>,
    b: Seq<Seq<real>>,
    r: int,
    c: int,
    factor: real,
    n: nat,
)
    requires
        shaped(e, n, n),
        shaped(b, n, n),
        0 <= c < n,
        0 <= r < n,
        r != c,
    ensures
        mat_mul(column_added(e, c, r, factor), b.update(r, row_reduced(b[r], b[c], factor)))
            == mat_mul(e, b),
        shaped(column_added(e, c, r, factor), n, n),
{
    let e2 = column_added(e, c, r, factor);
    let b2 = b.update(r, row_reduced(b[r], b[c], factor));
    let l = mat_mul(e2, b2);
    let want = mat_mul(e, b);
    assert(shaped(b2, n, n));
    assert(shaped(e2, n, n)) by {
        assert forall|i: int| 0 <= i < n implies (#[trigger] e2[i]).len() == n by {}
    }
    assert forall|i: int| 0 <= i < n implies #[trigger] l[i] =~= want[i] by {
        assert forall|j: int| 0 <= j < n implies l[i][j] == want[i][j] by {
            let f = |k: int| e[i][k] * column(b, j)[k];
            let g = |k: int| e2[i][k] * column(b2, j)[k];
            assert forall|k: int| 0 <= k < n && k != c && k != r implies #[trigger] g(k)
                == f(k) by {}
            let (ec, er) = (e[i][c], e[i][r]);
            let (bc, br) = (b[c][j], b[r][j]);
            assert(g(c) == (ec + factor * er) * bc);
            assert(g(r) == er * (br - factor * bc));
            assert((ec + factor * er) * bc + er * (br - factor * bc) == ec * bc + er * br)
                by (nonlinear_arith);
            lemma_sum_same_but_two(n, f, g, c, r);
            assert(l[i][j] == sum(n, g));
            assert(want[i][j] == sum(n, f));
        }
    }
    assert(l =~= want);
}

/// What the elimination keeps: `b * m` is `a`, `e * b` is the identity, and
/// the columns of `a` before column `c` are columns of the identity.
pub open spec fn kept(
    a: Seq<Seq<real>>,
    b: Seq<Seq<real>>,
    e: Seq<Seq<real>>,
    m: Seq<Seq<real>>,
    c: int,
    n: nat,
) -> bool {
    &&& shaped(a, n, n)
    &&& shaped(b, n, n)
    &&& shaped(e, n, n)
    &&& shaped(m, n, n)
    &&& mat_mul(b, m) == a
    &&& mat_mul(e, b) == identity(n)
    &&& reduced_upto(a, c, n as int)
}

/// A pivot that is found lies at or below the diagonal and is not zero; when
/// none is found the column is zero from the diagonal down.
pub proof fn lemma_first_pivot(a: Seq<Seq<real>>, c: int, r: int, n: int)
    requires
        0 <= r <= n,
    ensures
        match first_pivot(a, c, r, n) {
            Some(p) => r <= p < n && a[p][c] != 0real,
            None => forall|i: int| r <= i < n ==> (#[trigger] a[i])[c] == 0real,
        },
    decreases n - r,
{
    if r < n && a[r][c] == 0real {
        lemma_first_pivot(a, c, r + 1, n);
    }
}

/// Clearing a column keeps what the elimination keeps, and leaves the column
/// a column of the identity. The matrix returned is the inverse of the right
/// block after the clearing.
pub proof fn lemma_cleared(
    a: Seq<Seq<real>>,
    b: Seq<Seq<real>>,
    e: Seq<Seq<real>>,
    m: Seq<Seq<real>>,
    c: int,
    r: int,
    n: nat,
) -> (e2: Seq<Seq<real>>)
    requires
        kept(a, b, e, m, c, n),
        0 <= c < n,
        0 <= r <= n,
        a[c][c] == 1real,
        forall|i: int| 0 <= i < r && i != c ==> (#[trigger] a[i])[c] == 0real,
    ensures
        q_cleared(a, b, c, r, n as int) matches Some((a2, b2)) ==> kept(a2, b2, e2, m, c + 1, n),
    decreases n - r,
{
    if r >= n {
        assert forall|i: int, j: int| 0 <= i < n && 0 <= j < c + 1 implies #[trigger] a[i][j] == (if i
            == j {
            1real
        } else {
            0real
        }) by {
            if j == c && i != c {
                assert(a[i][c] == 0real);
            }
        }
        e
    } else if r == c || a[r][c] == 0real {
        lemma_cleared(a, b, e, m, c, r + 1, n)
    } else {
        let f = a[r][c];
        match (q_reduced(a[r], a[c], f), q_reduced(b[r], b[c], f)) {
            (Some(ar), Some(br)) => {
                assert(ar =~= row_reduced(a[r], a[c], f));
                assert(br =~= row_reduced(b[r], b[c], f));
                let a2 = a.update(r, ar);
                let b2 = b.update(r, br);
                let e2 = column_added(e, c, r, f);
                lemma_product_reduced(b, m, r, c, f, n);
                lemma_reduce_cancels(e, b, r, c, f, n);
                assert(shaped(a2, n, n));
                assert forall|i: int, j: int| 0 <= i < n && 0 <= j < c implies #[trigger] a2[i][j]
                    == (if i == j {
                    1real
                } else {
                    0real
                }) by {
                    if i == r {
                        assert(a[c][j] == 0real);
                        assert(a2[r][j] == a[r][j] - f * a[c][j]);
                        assert(f * 0real == 0real) by (nonlinear_arith);
                    }
                }
                assert(a2[r][c] == 0real) by {
                    assert(a2[r][c] == a[r][c] - f * a[c][c]);
                    assert(f - f * 1real == 0real) by (nonlinear_arith);
                }
                assert(a2[c][c] == 1real);
                assert forall|i: int| 0 <= i < r + 1 && i != c implies (#[trigger] a2[i])[c]
                    == 0real by {
                    if i != r {
                        assert(a2[i] == a[i]);
                    }
                }
                lemma_cleared(a2, b2, e2, m, c, r + 1, n)
            },
            _ => e,
        }
    }
}

/// A matrix whose columns are all columns of the identity is the identity.
proof fn lemma_fully_reduced(a: Seq<Seq<real>>, n: nat)
    requires
        shaped(a, n, n),
        reduced_upto(a, n as int, n as int),
    ensures
        a == identity(n),
{
    let id = identity(n);
    assert forall|i: int| 0 <= i < n implies #[trigger] a[i] =~= id[i] by {
        assert forall|j: int| 0 <= j < n implies a[i][j] == id[i][j] by {}
    }
    assert(a =~= id);
}

/// With a column that has no pivot, the vector that the elimination points
/// to is sent to zero by the left block.
proof fn lemma_kernel_of_left(a: Seq<Seq<real>>, c: int, n: nat)
    requires
        shaped(a, n, n),
        0 <= c < n,
        reduced_upto(a, c, n as int),
        forall|i: int| c <= i < n ==> (#[trigger] a[i])[c] == 0real,
    ensures
        shaped(kernel_column(a, c), n, 1),
        !is_zero(kernel_column(a, c)),
        is_zero(mat_mul(a, kernel_column(a, c))),
{
    let v = kernel_column(a, c);
    assert(shaped(v, n, 1));
    assert(v[c][0] == 1real);
    let p = mat_mul(a, v);
    assert forall|i: int, j: int| 0 <= i < p.len() && 0 <= j < p[i].len() implies p[i][j]
        == 0real by {
        let g = |k: int| a[i][k] * column(v, 0)[k];
        let zero = |k: int| 0real;
        assert(p[i][0] == sum(n, g));
        assert(column(v, 0)[c] == 1real);
        if i < c {
            assert forall|k: int| 0 <= k < n && k != c && k != i implies #[trigger] g(k) == zero(
                k,
            ) by {
                if k < c {
                    assert(a[i][k] == 0real);
                    assert(0real * column(v, 0)[k] == 0real) by (nonlinear_arith);
                } else {
                    assert(column(v, 0)[k] == 0real);
                    assert(a[i][k] * 0real == 0real) by (nonlinear_arith);
                }
            }
            assert(a[i][i] == 1real);
            assert(column(v, 0)[i] == -a[i][c]);
            assert(g(i) + g(c) == 0real) by (nonlinear_arith)
                requires
                    g(i) == a[i][i] * column(v, 0)[i],
                    g(c) == a[i][c] * column(v, 0)[c],
                    a[i][i] == 1real,
                    column(v, 0)[i] == -a[i][c],
                    column(v, 0)[c] == 1real,
            ;
            lemma_sum_same_but_two(n, zero, g, i, c);
            lemma_sum_zero(n, zero);
        } else {
            assert forall|k: int| 0 <= k < n implies #[trigger] g(k) == 0real by {
                if k < c {
                    assert(a[i][k] == 0real);
                    assert(0real * column(v, 0)[k] == 0real) by (nonlinear_arith);
                } else if k == c {
                    assert(a[i][c] == 0real);
                    assert(0real * column(v, 0)[k] == 0real) by (nonlinear_arith);
                } else {
                    assert(column(v, 0)[k] == 0real);
                    assert(a[i][k] * 0real == 0real) by (nonlinear_arith);
                }
            }
            lemma_sum_zero(n, g);
        }
    }
}

/// Elimination inverts: when every column has found its pivot, the right
/// block is the inverse of `m` from both sides; and when a column has none,
/// `m` sends the vector that the elimination points to, which is not zero,
/// to zero.
pub proof fn lemma_eliminated(
    a: Seq<Seq<real>>,
    b: Seq<Seq<real>>,
    e: Seq<Seq<real>>,
    m: Seq<Seq<real>>,
    c: int,
    n: nat,
)
    requires
        kept(a, b, e, m, c, n),
        0 <= c <= n,
        n > 0,
    ensures
        match q_eliminated(a, b, c, n as int) {
            Elimination::Candidate(x) => inverse_pair(x, m, n),
            Elimination::NoPivot(at, left) => kernel_vector(m, kernel_column(left, at)),
            Elimination::Stuck => true,
        },
    decreases n - c,
{
    // e * a == e * (b * m) == m all along
    lemma_mul_assoc(e, b, m, n, n, n, n);
    lemma_mul_identity_left(m, n, n);
    assert(mat_mul(e, a) == m);
    if c >= n {
        lemma_fully_reduced(a, n);
        lemma_mul_identity_right(e, n, n);
        assert(e == m);
    } else {
        lemma_first_pivot(a, c, c, n as int);
        match first_pivot(a, c, c, n as int) {
            None => {
                lemma_kernel_of_left(a, c, n);
                let v = kernel_column(a, c);
                let av = mat_mul(a, v);
                lemma_mul_shape(a, v, n, n, 1);
                lemma_mul_assoc(e, a, v, n, n, n, 1);
                lemma_mul_zero(e, av, n, n, 1);
            },
            Some(p) => {
                let a1 = swapped(a, c, p);
                let b1 = swapped(b, c, p);
                let e1 = columns_swapped(e, c, p);
                lemma_product_swapped(b, m, c, p, n);
                lemma_swap_cancels(e, b, c, p, n);
                assert(shaped(a1, n, n));
                assert forall|i: int, j: int| 0 <= i < n && 0 <= j < c implies #[trigger] a1[i][j]
                    == (if i == j {
                    1real
                } else {
                    0real
                }) by {
                    assert(a[c][j] == 0real);
                    assert(a[p][j] == 0real);
                }
                let pivot = a1[c][c];
                assert(pivot == a[p][c]);
                match (q_scaled(a1[c], pivot), q_scaled(b1[c], pivot)) {
                    (Some(ac), Some(bc)) => {
                        assert(ac =~= row_scaled(a1[c], pivot));
                        assert(bc =~= row_scaled(b1[c], pivot));
                        let a2 = a1.update(c, ac);
                        let b2 = b1.update(c, bc);
                        let e2 = column_scaled(e1, c, pivot);
                        lemma_product_scaled(b1, m, c, pivot, n);
                        lemma_scale_cancels(e1, b1, c, pivot, n);
                        assert(shaped(a2, n, n));
                        assert forall|i: int, j: int|
                            0 <= i < n && 0 <= j < c implies #[trigger] a2[i][j] == (if i == j {
                            1real
                        } else {
                            0real
                        }) by {
                            if i == c {
                                assert(a1[c][j] == 0real);
                                assert(a2[c][j] == a1[c][j] / pivot);
                                assert(0real / pivot == 0real) by (nonlinear_arith)
                                    requires
                                        pivot != 0real,
                                ;
                            }
                        }
                        assert(a2[c][c] == 1real) by {
                            assert(a2[c][c] == pivot / pivot);
                            assert(pivot / pivot == 1real) by (nonlinear_arith)
                                requires
                                    pivot != 0real,
                            ;
                        }
                        let e3 = lemma_cleared(a2, b2, e2, m, c, 0, n);
                        match q_cleared(a2, b2, c, 0, n as int) {
                            Some((a3, b3)) => {
                                lemma_eliminated(a3, b3, e3, m, c + 1, n);
                            },
                            None => {},
                        }
                    },
                    _ => {},
                }
            },
        }
    }
}

} // verus!