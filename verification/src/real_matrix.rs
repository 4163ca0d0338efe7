//! Matrices of real numbers, as the mathematics has them.
//!
//! A matrix is a sequence of rows. Everything here is specification: the
//! executable matrices of this crate state their contracts over these
//! functions, and the algebraic laws proved here carry over to them.
use vstd::prelude::*;
use crate::rational::{q_add, q_mul, representable};

verus! {

/// The sum `f(0) + ... + f(n - 1)`.
pub open spec fn sum(n: nat, f: spec_fn(int) -> real) -> real
    decreases n,
{
    if n == 0 {
        0real
    } else {
        sum((n - 1) as nat, f) + f(n - 1)
    }
}

/// `m` has `r` rows of `c` entries each.
pub open spec fn shaped(m: Seq<Seq<real>>, r: nat, c: nat) -> bool {
    &&& m.len() == r
    &&& forall|i: int| 0 <= i < r ==> (#[trigger] m[i]).len() == c
}

/// The number of columns of a matrix that has a row.
pub open spec fn width(m: Seq<Seq<real>>) -> nat {
    if m.len() == 0 {
        0
    } else {
        m[0].len()
    }
}

/// Column `j` of `m`.
pub open spec fn column(m: Seq<Seq<real>>, j: int) -> Seq<real> {
    Seq::new(m.len(), |k: int| m[k][j])
}

/// The inner product of `a` and `b`, over the length of `a`.
pub open spec fn dot(a: Seq<real>, b: Seq<real>) -> real {
    sum(a.len(), |k: int| a[k] * b[k])
}

/// The matrix product `a * b`.
pub open spec fn mat_mul(a: Seq<Seq<real>>, b: Seq<Seq<real>>) -> Seq<Seq<real>> {
    Seq::new(a.len(), |i: int| Seq::new(width(b), |j: int| dot(a[i], column(b, j))))
}

/// The transposed matrix.
pub open spec fn transpose(m: Seq<Seq<real>>) -> Seq<Seq<real>> {
    Seq::new(width(m), |j: int| Seq::new(m.len(), |i: int| m[i][j]))
}

/// The entrywise sum `a + b`, in the shape of `a`.
pub open spec fn mat_add(a: Seq<Seq<real>>, b: Seq<Seq<real>>) -> Seq<Seq<real>> {
    Seq::new(a.len(), |i: int| Seq::new(a[i].len(), |j: int| a[i][j] + b[i][j]))
}

/// The entrywise difference `a - b`, in the shape of `a`.
pub open spec fn mat_sub(a: Seq<Seq<real>>, b: Seq<Seq<real>>) -> Seq<Seq<real>> {
    Seq::new(a.len(), |i: int| Seq::new(a[i].len(), |j: int| a[i][j] - b[i][j]))
}

/// The identity matrix of size `n`.
pub open spec fn identity(n: nat) -> Seq<Seq<real>> {
    Seq::new(n, |i: int| Seq::new(n, |j: int| if i == j { 1real } else { 0real }))
}

/// `m` equals its own transpose.
pub open spec fn symmetric(m: Seq<Seq<real>>) -> bool {
    forall|i: int, j: int| 0 <= i < m.len() && 0 <= j < m.len() ==> m[i][j] == m[j][i]
}

/// Every entry of `m` can be stored.
pub open spec fn all_representable(m: Seq<Seq<real>>) -> bool {
    forall|i: int, j: int|
        0 <= i < m.len() && 0 <= j < m[i].len() ==> representable(#[trigger] m[i][j])
}

/// The inner product of the first `n` entries, accumulated from the left in
/// stored numbers: `None` as soon as a product or a partial sum cannot be
/// stored.
pub open spec fn q_dot_upto(a: Seq<real>, b: Seq<real>, n: nat) -> Option<real>
    decreases n,
{
    if n == 0 {
        Some(0real)
    } else {
        match q_dot_upto(a, b, (n - 1) as nat) {
            Some(s) => match q_mul(a[n - 1], b[n - 1]) {
                Some(p) => q_add(s, p),
                None => None,
            },
            None => None,
        }
    }
}

/// The inner product of `a` and `b` in stored numbers.
pub open spec fn q_dot(a: Seq<real>, b: Seq<real>) -> Option<real> {
    q_dot_upto(a, b, a.len())
}

/// Every entry of the product `a * b` can be computed in stored numbers.
pub open spec fn mul_defined(a: Seq<Seq<real>>, b: Seq<Seq<real>>) -> bool {
    forall|i: int, j: int|
        0 <= i < a.len() && 0 <= j < width(b) ==> (#[trigger] q_dot(a[i], column(b, j))) is Some
}

/// The product `a * b`, if it can be computed in stored numbers.
pub open spec fn q_mat_mul(a: Seq<Seq<real>>, b: Seq<Seq<real>>) -> Option<Seq<Seq<real>>> {
    if mul_defined(a, b) {
        Some(mat_mul(a, b))
    } else {
        None
    }
}

/// The sum `a + b`, if it can be stored.
pub open spec fn q_mat_add(a: Seq<Seq<real>>, b: Seq<Seq<real>>) -> Option<Seq<Seq<real>>> {
    if all_representable(mat_add(a, b)) {
        Some(mat_add(a, b))
    } else {
        None
    }
}

/// The difference `a - b`, if it can be stored.
pub open spec fn q_mat_sub(a: Seq<Seq<real>>, b: Seq<Seq<real>>) -> Option<Seq<Seq<real>>> {
    if all_representable(mat_sub(a, b)) {
        Some(mat_sub(a, b))
    } else {
        None
    }
}

/// An inner product that can be computed in stored numbers is the exact one.
pub proof fn lemma_q_dot_exact(a: Seq<real>, b: Seq<real>, n: nat)
    ensures
        q_dot_upto(a, b, n) matches Some(v) ==> v == sum(n, |k: int| a[k] * b[k]),
    decreases n,
{
    if n > 0 {
        lemma_q_dot_exact(a, b, (n - 1) as nat);
    }
}

/// Sums of functions that agree below `n` are equal.
pub proof fn lemma_sum_ext(n: nat, f: spec_fn(int) -> real, g: spec_fn(int) -> real)
    requires
        forall|k: int| 0 <= k < n ==> #[trigger] f(k) == g(k),
    ensures
        sum(n, f) == sum(n, g),
    decreases n,
{
    if n > 0 {
        lemma_sum_ext((n - 1) as nat, f, g);
    }
}

/// A factor common to every term can be taken out of a sum.
pub proof fn lemma_sum_scale(n: nat, c: real, f: spec_fn(int) -> real, g: spec_fn(int) -> real)
    requires
        forall|k: int| 0 <= k < n ==> #[trigger] g(k) == c * f(k),
    ensures
        sum(n, g) == c * sum(n, f),
    decreases n,
{
    if n > 0 {
        lemma_sum_scale((n - 1) as nat, c, f, g);
        let s = sum((n - 1) as nat, f);
        let t = f(n - 1);
        assert(c * (s + t) == c * s + c * t) by (nonlinear_arith);
    } else {
        assert(c * 0real == 0real) by (nonlinear_arith);
    }
}

/// The sum of termwise sums is the sum of the sums.
pub proof fn lemma_sum_add(
    n: nat,
    f: spec_fn(int) -> real,
    g: spec_fn(int) -> real,
    h: spec_fn(int) -> real,
)
    requires
        forall|k: int| 0 <= k < n ==> #[trigger] h(k) == f(k) + g(k),
    ensures
        sum(n, h) == sum(n, f) + sum(n, g),
    decreases n,
{
    if n > 0 {
        lemma_sum_add((n - 1) as nat, f, g, h);
    }
}

/// The sum of termwise differences is the difference of the sums.
pub proof fn lemma_sum_sub(
    n: nat,
    f: spec_fn(int) -> real,
    g: spec_fn(int) -> real,
    h: spec_fn(int) -> real,
)
    requires
        forall|k: int| 0 <= k < n ==> #[trigger] h(k) == f(k) - g(k),
    ensures
        sum(n, h) == sum(n, f) - sum(n, g),
    decreases n,
{
    if n > 0 {
        lemma_sum_sub((n - 1) as nat, f, g, h);
    }
}

/// A sum whose terms all vanish but the one at `p` is that term.
pub proof fn lemma_sum_single(n: nat, f: spec_fn(int) -> real, p: int)
    requires
        0 <= p < n,
        forall|k: int| 0 <= k < n && k != p ==> #[trigger] f(k) == 0real,
    ensures
        sum(n, f) == f(p),
    decreases n,
{
    if n - 1 == p {
        lemma_sum_zero((n - 1) as nat, f);
    } else {
        lemma_sum_single((n - 1) as nat, f, p);
    }
}

/// A sum of zeros is zero.
pub proof fn lemma_sum_zero(n: nat, f: spec_fn(int) -> real)
    requires
        forall|k: int| 0 <= k < n ==> #[trigger] f(k) == 0real,
    ensures
        sum(n, f) == 0real,
    decreases n,
{
    if n > 0 {
        lemma_sum_zero((n - 1) as nat, f);
    }
}

/// Two sums whose terms agree but in two places, where the two terms add up
/// to the same, are equal.
pub proof fn lemma_sum_same_but_two(
    n: nat,
    f: spec_fn(int) -> real,
    g: spec_fn(int) -> real,
    p: int,
    q: int,
)
    requires
        0 <= p < n,
        0 <= q < n,
        p != q,
        forall|k: int| 0 <= k < n && k != p && k != q ==> #[trigger] g(k) == f(k),
        g(p) + g(q) == f(p) + f(q),
    ensures
        sum(n, g) == sum(n, f),
    decreases n,
{
    let last = n - 1;
    if last == p || last == q {
        let other = if last == p { q } else { p };
        // below the last place the sums differ by what the other place differs by
        lemma_sum_same_but_one((n - 1) as nat, f, g, other);
    } else {
        lemma_sum_same_but_two((n - 1) as nat, f, g, p, q);
    }
}

/// Two sums whose terms agree but in one place differ by what the terms in
/// that place differ by.
pub proof fn lemma_sum_same_but_one(
    n: nat,
    f: spec_fn(int) -> real,
    g: spec_fn(int) -> real,
    p: int,
)
    requires
        0 <= p < n,
        forall|k: int| 0 <= k < n && k != p ==> #[trigger] g(k) == f(k),
    ensures
        sum(n, g) - sum(n, f) == g(p) - f(p),
    decreases n,
{
    if n - 1 == p {
        lemma_sum_ext((n - 1) as nat, g, f);
    } else {
        lemma_sum_same_but_one((n - 1) as nat, f, g, p);
    }
}

/// A double sum may be taken in either order: `r` holds the sums over the
/// second index, `c` those over the first.
pub proof fn lemma_sum_swap(
    n: nat,
    m: nat,
    f: spec_fn(int, int) -> real,
    r: spec_fn(int) -> real,
    c: spec_fn(int) -> real,
)
    requires
        forall|i: int| 0 <= i < n ==> #[trigger] r(i) == sum(m, |j: int| f(i, j)),
        forall|j: int| 0 <= j < m ==> #[trigger] c(j) == sum(n, |i: int| f(i, j)),
    ensures
        sum(n, r) == sum(m, c),
    decreases n,
{
    if n == 0 {
        lemma_sum_zero(m, c);
    } else {
        let n1 = (n - 1) as nat;
        let c1 = |j: int| sum(n1, |i: int| f(i, j));
        let last = |j: int| f(n - 1, j);
        lemma_sum_swap(n1, m, f, r, c1);
        assert forall|j: int| 0 <= j < m implies #[trigger] c(j) == c1(j) + last(j) by {
            let col = |i: int| f(i, j);
            assert(sum(n, col) == sum(n1, col) + col(n - 1));
        }
        lemma_sum_add(m, c1, last, c);
        assert(r(n - 1) == sum(m, |j: int| f(n - 1, j)));
        lemma_sum_ext(m, last, |j: int| f(n - 1, j));
    }
}

/// The shape of a product.
pub proof fn lemma_mul_shape(a: Seq<Seq<real>>, b: Seq<Seq<real>>, r: nat, k: nat, c: nat)
    requires
        shaped(a, r, k),
        shaped(b, k, c),
        k > 0,
    ensures
        shaped(mat_mul(a, b), r, c),
{
}

/// The shape of a transpose.
pub proof fn lemma_transpose_shape(m: Seq<Seq<real>>, r: nat, c: nat)
    requires
        shaped(m, r, c),
        r > 0,
    ensures
        shaped(transpose(m), c, r),
{
}

/// Transposing twice gives the matrix back.
pub proof fn lemma_transpose_involutive(m: Seq<Seq<real>>, r: nat, c: nat)
    requires
        shaped(m, r, c),
        r > 0,
        c > 0,
    ensures
        transpose(transpose(m)) == m,
{
    let t = transpose(m);
    assert(shaped(t, c, r));
    let tt = transpose(t);
    assert(tt.len() == m.len());
    assert forall|i: int| 0 <= i < r implies #[trigger] tt[i] =~= m[i] by {
        assert(tt[i].len() == c);
        assert forall|j: int| 0 <= j < c implies tt[i][j] == m[i][j] by {
            assert(tt[i][j] == t[j][i]);
        }
    }
    assert(tt =~= m);
}

/// A symmetric square matrix is its own transpose.
pub proof fn lemma_symmetric_transpose(m: Seq<Seq<real>>, n: nat)
    requires
        shaped(m, n, n),
        symmetric(m),
    ensures
        transpose(m) == m,
{
    let t = transpose(m);
    if n > 0 {
        assert forall|i: int| 0 <= i < n implies #[trigger] t[i] =~= m[i] by {
            assert forall|j: int| 0 <= j < n implies t[i][j] == m[i][j] by {
                assert(t[i][j] == m[j][i]);
            }
        }
    }
    assert(t =~= m);
}

/// The transpose of a product is the product of the transposes, reversed.
pub proof fn lemma_transpose_mul(a: Seq<Seq<real>>, b: Seq<Seq<real>>, r: nat, k: nat, c: nat)
    requires
        shaped(a, r, k),
        shaped(b, k, c),
        r > 0,
        k > 0,
        c > 0,
    ensures
        transpose(mat_mul(a, b)) == mat_mul(transpose(b), transpose(a)),
{
    let ab = mat_mul(a, b);
    let lhs = transpose(ab);
    let bt = transpose(b);
    let at = transpose(a);
    let rhs = mat_mul(bt, at);
    assert(shaped(ab, r, c));
    assert(shaped(lhs, c, r));
    assert(shaped(bt, c, k));
    assert(shaped(at, k, r));
    assert(shaped(rhs, c, r));
    assert forall|j: int| 0 <= j < c implies #[trigger] lhs[j] =~= rhs[j] by {
        assert forall|i: int| 0 <= i < r implies lhs[j][i] == rhs[j][i] by {
            assert(lhs[j][i] == ab[i][j]);
            let f = |t: int| a[i][t] * column(b, j)[t];
            let g = |t: int| bt[j][t] * column(at, i)[t];
            assert forall|t: int| 0 <= t < k implies #[trigger] f(t) == g(t) by {
                assert(column(b, j)[t] == b[t][j]);
                assert(bt[j][t] == b[t][j]);
                assert(column(at, i)[t] == at[t][i]);
                assert(at[t][i] == a[i][t]);
                assert(a[i][t] * b[t][j] == b[t][j] * a[i][t]) by (nonlinear_arith);
            }
            lemma_sum_ext(k, f, g);
            assert(ab[i][j] == sum(k, f));
            assert(rhs[j][i] == dot(bt[j], column(at, i)));
        }
    }
    assert(lhs =~= rhs);
}

/// Matrix multiplication is associative.
pub proof fn lemma_mul_assoc(
    a: Seq<Seq<real>>,
    b: Seq<Seq<real>>,
    c: Seq<Seq<real>>,
    r: nat,
    k: nat,
    l: nat,
    w: nat,
)
    requires
        shaped(a, r, k),
        shaped(b, k, l),
        shaped(c, l, w),
        k > 0,
        l > 0,
    ensures
        mat_mul(mat_mul(a, b), c) == mat_mul(a, mat_mul(b, c)),
{
    let ab = mat_mul(a, b);
    let bc = mat_mul(b, c);
    let lhs = mat_mul(ab, c);
    let rhs = mat_mul(a, bc);
    assert(shaped(ab, r, l));
    assert(shaped(bc, k, w));
    assert(shaped(lhs, r, w));
    assert(shaped(rhs, r, w));
    assert forall|i: int| 0 <= i < r implies #[trigger] lhs[i] =~= rhs[i] by {
        assert forall|j: int| 0 <= j < w implies lhs[i][j] == rhs[i][j] by {
            lemma_mul_assoc_entry(a, b, c, r, k, l, w, i, j);
        }
    }
    assert(lhs =~= rhs);
}

proof fn lemma_mul_assoc_entry(
    a: Seq<Seq<real>>,
    b: Seq<Seq<real>>,
    c: Seq<Seq<real>>,
    r: nat,
    k: nat,
    l: nat,
    w: nat,
    i: int,
    j: int,
)
    requires
        shaped(a, r, k),
        shaped(b, k, l),
        shaped(c, l, w),
        k > 0,
        l > 0,
        0 <= i < r,
        0 <= j < w,
    ensures
        mat_mul(mat_mul(a, b), c)[i][j] == mat_mul(a, mat_mul(b, c))[i][j],
{
    let ab = mat_mul(a, b);
    let bc = mat_mul(b, c);
    // f(s, t) = a[i][s] * b[s][t] * c[t][j]
    let f = |s: int, t: int| a[i][s] * (b[s][t] * c[t][j]);
    // left: sum over t of (ab)[i][t] * c[t][j]
    let left = |t: int| ab[i][t] * column(c, j)[t];
    // right: sum over s of a[i][s] * (bc)[s][j]
    let right = |s: int| a[i][s] * column(bc, j)[s];
    assert(mat_mul(ab, c)[i][j] == sum(l, left));
    assert(mat_mul(a, bc)[i][j] == sum(k, right));
    assert forall|t: int| 0 <= t < l implies #[trigger] left(t) == sum(k, |s: int| f(s, t)) by {
        let x = c[t][j];
        let base = |s: int| a[i][s] * column(b, t)[s];
        let scaled = |s: int| f(s, t);
        assert(ab[i][t] == sum(k, base));
        assert forall|s: int| 0 <= s < k implies #[trigger] scaled(s) == x * base(s) by {
            assert(column(b, t)[s] == b[s][t]);
            assert(a[i][s] * (b[s][t] * x) == x * (a[i][s] * b[s][t])) by (nonlinear_arith);
        }
        lemma_sum_scale(k, x, base, scaled);
        assert(column(c, j)[t] == x);
        assert(sum(k, base) * x == x * sum(k, base)) by (nonlinear_arith);
    }
    assert forall|s: int| 0 <= s < k implies #[trigger] right(s) == sum(l, |t: int| f(s, t)) by {
        let x = a[i][s];
        let base = |t: int| b[s][t] * column(c, j)[t];
        let scaled = |t: int| f(s, t);
        assert(bc[s][j] == sum(l, base));
        assert forall|t: int| 0 <= t < l implies #[trigger] scaled(t) == x * base(t) by {
            assert(column(c, j)[t] == c[t][j]);
        }
        lemma_sum_scale(l, x, base, scaled);
        assert(column(bc, j)[s] == bc[s][j]);
    }
    lemma_sum_swap(k, l, f, right, left);
}

/// Multiplying by the identity on the left changes nothing.
pub proof fn lemma_mul_identity_left(a: Seq<Seq<real>>, r: nat, c: nat)
    requires
        shaped(a, r, c),
        r > 0,
    ensures
        mat_mul(identity(r), a) == a,
{
    let id = identity(r);
    let p = mat_mul(id, a);
    assert forall|i: int| 0 <= i < r implies #[trigger] p[i] =~= a[i] by {
        assert forall|j: int| 0 <= j < c implies p[i][j] == a[i][j] by {
            let f = |k: int| id[i][k] * column(a, j)[k];
            assert forall|k: int| 0 <= k < r && k != i implies #[trigger] f(k) == 0real by {
                assert(0real * column(a, j)[k] == 0real) by (nonlinear_arith);
            }
            lemma_sum_single(r, f, i);
            assert(1real * column(a, j)[i] == column(a, j)[i]) by (nonlinear_arith);
            assert(p[i][j] == sum(r, f));
        }
    }
    assert(p =~= a);
}

/// Multiplying by the identity on the right changes nothing.
pub proof fn lemma_mul_identity_right(a: Seq<Seq<real>>, r: nat, c: nat)
    requires
        shaped(a, r, c),
        c > 0,
    ensures
        mat_mul(a, identity(c)) == a,
{
    let id = identity(c);
    let p = mat_mul(a, id);
    assert(shaped(id, c, c));
    assert forall|i: int| 0 <= i < r implies #[trigger] p[i] =~= a[i] by {
        assert forall|j: int| 0 <= j < c implies p[i][j] == a[i][j] by {
            let f = |k: int| a[i][k] * column(id, j)[k];
            assert forall|k: int| 0 <= k < c && k != j implies #[trigger] f(k) == 0real by {
                assert(column(id, j)[k] == 0real);
                assert(a[i][k] * 0real == 0real) by (nonlinear_arith);
            }
            lemma_sum_single(c, f, j);
            assert(column(id, j)[j] == 1real);
            assert(a[i][j] * 1real == a[i][j]) by (nonlinear_arith);
            assert(p[i][j] == sum(c, f));
        }
    }
    assert(p =~= a);
}

/// Multiplication distributes over a sum on its right.
pub proof fn lemma_mul_distributes_add(
    a: Seq<Seq<real>>,
    b: Seq<Seq<real>>,
    c: Seq<Seq<real>>,
    r: nat,
    k: nat,
    w: nat,
)
    requires
        shaped(a, r, k),
        shaped(b, k, w),
        shaped(c, k, w),
        k > 0,
    ensures
        mat_mul(a, mat_add(b, c)) == mat_add(mat_mul(a, b), mat_mul(a, c)),
{
    let bc = mat_add(b, c);
    let lhs = mat_mul(a, bc);
    let ab = mat_mul(a, b);
    let ac = mat_mul(a, c);
    let rhs = mat_add(ab, ac);
    assert(shaped(bc, k, w));
    assert forall|i: int| 0 <= i < r implies #[trigger] lhs[i] =~= rhs[i] by {
        assert forall|j: int| 0 <= j < w implies lhs[i][j] == rhs[i][j] by {
            let f = |t: int| a[i][t] * column(b, j)[t];
            let g = |t: int| a[i][t] * column(c, j)[t];
            let h = |t: int| a[i][t] * column(bc, j)[t];
            assert forall|t: int| 0 <= t < k implies #[trigger] h(t) == f(t) + g(t) by {
                assert(column(bc, j)[t] == b[t][j] + c[t][j]);
                assert(a[i][t] * (b[t][j] + c[t][j]) == a[i][t] * b[t][j] + a[i][t] * c[t][j])
                    by (nonlinear_arith);
            }
            lemma_sum_add(k, f, g, h);
            assert(lhs[i][j] == sum(k, h));
            assert(ab[i][j] == sum(k, f));
            assert(ac[i][j] == sum(k, g));
        }
    }
    assert(lhs =~= rhs);
}

/// Multiplication distributes over a difference on its right.
pub proof fn lemma_mul_distributes_sub(
    a: Seq<Seq<real>>,
    b: Seq<Seq<real>>,
    c: Seq<Seq<real>>,
    r: nat,
    k: nat,
    w: nat,
)
    requires
        shaped(a, r, k),
        shaped(b, k, w),
        shaped(c, k, w),
        k > 0,
    ensures
        mat_mul(a, mat_sub(b, c)) == mat_sub(mat_mul(a, b), mat_mul(a, c)),
{
    let bc = mat_sub(b, c);
    let lhs = mat_mul(a, bc);
    let ab = mat_mul(a, b);
    let ac = mat_mul(a, c);
    let rhs = mat_sub(ab, ac);
    assert(shaped(bc, k, w));
    assert forall|i: int| 0 <= i < r implies #[trigger] lhs[i] =~= rhs[i] by {
        assert forall|j: int| 0 <= j < w implies lhs[i][j] == rhs[i][j] by {
            let f = |t: int| a[i][t] * column(b, j)[t];
            let g = |t: int| a[i][t] * column(c, j)[t];
            let h = |t: int| a[i][t] * column(bc, j)[t];
            assert forall|t: int| 0 <= t < k implies #[trigger] h(t) == f(t) - g(t) by {
                assert(column(bc, j)[t] == b[t][j] - c[t][j]);
                assert(a[i][t] * (b[t][j] - c[t][j]) == a[i][t] * b[t][j] - a[i][t] * c[t][j])
                    by (nonlinear_arith);
            }
            lemma_sum_sub(k, f, g, h);
            assert(lhs[i][j] == sum(k, h));
            assert(ab[i][j] == sum(k, f));
            assert(ac[i][j] == sum(k, g));
        }
    }
    assert(lhs =~= rhs);
}

/// Multiplication distributes over a sum on its left.
pub proof fn lemma_mul_distributes_add_left(
    a: Seq<Seq<real>>,
    b: Seq<Seq<real>>,
    c: Seq<Seq<real>>,
    r: nat,
    k: nat,
    w: nat,
)
    requires
        shaped(a, r, k),
        shaped(b, r, k),
        shaped(c, k, w),
        k > 0,
    ensures
        mat_mul(mat_add(a, b), c) == mat_add(mat_mul(a, c), mat_mul(b, c)),
{
    let ab = mat_add(a, b);
    let lhs = mat_mul(ab, c);
    let ac = mat_mul(a, c);
    let bc = mat_mul(b, c);
    let rhs = mat_add(ac, bc);
    assert(shaped(ab, r, k));
    assert forall|i: int| 0 <= i < r implies #[trigger] lhs[i] =~= rhs[i] by {
        assert forall|j: int| 0 <= j < w implies lhs[i][j] == rhs[i][j] by {
            let f = |t: int| a[i][t] * column(c, j)[t];
            let g = |t: int| b[i][t] * column(c, j)[t];
            let h = |t: int| ab[i][t] * column(c, j)[t];
            assert forall|t: int| 0 <= t < k implies #[trigger] h(t) == f(t) + g(t) by {
                assert(ab[i][t] == a[i][t] + b[i][t]);
                assert((a[i][t] + b[i][t]) * c[t][j] == a[i][t] * c[t][j] + b[i][t] * c[t][j])
                    by (nonlinear_arith);
            }
            lemma_sum_add(k, f, g, h);
            assert(lhs[i][j] == sum(k, h));
            assert(ac[i][j] == sum(k, f));
            assert(bc[i][j] == sum(k, g));
        }
    }
    assert(lhs =~= rhs);
}

/// Multiplication distributes over a difference on its left.
pub proof fn lemma_mul_distributes_sub_left(
    a: Seq<Seq<real>>,
    b: Seq<Seq<real>>,
    c: Seq<Seq<real>>,
    r: nat,
    k: nat,
    w: nat,
)
    requires
        shaped(a, r, k),
        shaped(b, r, k),
        shaped(c, k, w),
        k > 0,
    ensures
        mat_mul(mat_sub(a, b), c) == mat_sub(mat_mul(a, c), mat_mul(b, c)),
{
    let ab = mat_sub(a, b);
    let lhs = mat_mul(ab, c);
    let ac = mat_mul(a, c);
    let bc = mat_mul(b, c);
    let rhs = mat_sub(ac, bc);
    assert(shaped(ab, r, k));
    assert forall|i: int| 0 <= i < r implies #[trigger] lhs[i] =~= rhs[i] by {
        assert forall|j: int| 0 <= j < w implies lhs[i][j] == rhs[i][j] by {
            let f = |t: int| a[i][t] * column(c, j)[t];
            let g = |t: int| b[i][t] * column(c, j)[t];
            let h = |t: int| ab[i][t] * column(c, j)[t];
            assert forall|t: int| 0 <= t < k implies #[trigger] h(t) == f(t) - g(t) by {
                assert(ab[i][t] == a[i][t] - b[i][t]);
                assert((a[i][t] - b[i][t]) * c[t][j] == a[i][t] * c[t][j] - b[i][t] * c[t][j])
                    by (nonlinear_arith);
            }
            lemma_sum_sub(k, f, g, h);
            assert(lhs[i][j] == sum(k, h));
            assert(ac[i][j] == sum(k, f));
            assert(bc[i][j] == sum(k, g));
        }
    }
    assert(lhs =~= rhs);
}

/// The transpose of a difference is the difference of the transposes.
pub proof fn lemma_transpose_sub(a: Seq<Seq<real>>, b: Seq<Seq<real>>, r: nat, c: nat)
    requires
        shaped(a, r, c),
        shaped(b, r, c),
        r > 0,
    ensures
        transpose(mat_sub(a, b)) == mat_sub(transpose(a), transpose(b)),
{
    let l = transpose(mat_sub(a, b));
    let m = mat_sub(transpose(a), transpose(b));
    assert(shaped(mat_sub(a, b), r, c));
    assert(l.len() == c && m.len() == c);
    assert forall|j: int| 0 <= j < c implies #[trigger] l[j] =~= m[j] by {
        assert(transpose(a)[j].len() == r);
        assert forall|i: int| 0 <= i < r implies l[j][i] == m[j][i] by {
            assert(l[j][i] == mat_sub(a, b)[i][j]);
            assert(transpose(a)[j][i] == a[i][j]);
            assert(transpose(b)[j][i] == b[i][j]);
        }
    }
    assert(l =~= m);
}

/// The identity matrix is its own transpose.
pub proof fn lemma_identity_symmetric(n: nat)
    ensures
        symmetric(identity(n)),
        transpose(identity(n)) == identity(n),
        shaped(identity(n), n, n),
{
    lemma_symmetric_transpose(identity(n), n);
}

/// A sum of terms that are not negative is not negative.
pub proof fn lemma_sum_nonnegative(n: nat, f: spec_fn(int) -> real)
    requires
        forall|k: int| 0 <= k < n ==> #[trigger] f(k) >= 0real,
    ensures
        sum(n, f) >= 0real,
    decreases n,
{
    if n > 0 {
        lemma_sum_nonnegative((n - 1) as nat, f);
    }
}

} // verus!