//! Covariance matrices as positive semidefinite matrices, and why smoothing
//! cannot make a covariance larger.
use vstd::prelude::*;
use crate::filter::linear::{
    fit_error, forward_steps, gain, jacobians_shaped, lemma_backward_failure_stays,
    lemma_filtered_is_exact, lemma_forward_success_before, lemma_smoothed_is_exact, q_backward,
    q_forward, selector, Track,
};
use crate::filter::prediction::{congruence, lemma_congruence_symmetric, residual_covariance};
use crate::geometry::traits::Transform;
use crate::inverse::{inverse_pair, q_inverse};
use crate::real_matrix::{
    column, identity, lemma_identity_symmetric, lemma_mul_assoc, lemma_mul_distributes_add,
    lemma_mul_distributes_add_left, lemma_mul_distributes_sub, lemma_mul_distributes_sub_left,
    lemma_mul_identity_left, lemma_mul_identity_right, lemma_mul_shape, lemma_sum_nonnegative,
    lemma_sum_single, lemma_sum_sub, lemma_symmetric_transpose, lemma_transpose_involutive,
    lemma_transpose_mul, lemma_transpose_shape, lemma_transpose_sub, mat_add, mat_mul, mat_sub,
    shaped, sum, symmetric, transpose,
};

verus! {

/// The quadratic form `vᵗ * m * v`.
pub open spec fn quad(m: Seq<Seq<real>>, v: Seq<Seq<real>>) -> real {
    mat_mul(transpose(v), mat_mul(m, v))[0][0]
}

/// `m` is a square matrix of size `n` whose quadratic form is never
/// negative.
pub open spec fn psd(m: Seq<Seq<real>>, n: nat) -> bool {
    &&& shaped(m, n, n)
    &&& forall|v: Seq<Seq<real>>| shaped(v, n, 1) ==> #[trigger] quad(m, v) >= 0real
}

/// A covariance matrix: symmetric, with a quadratic form that is never
/// negative.
pub open spec fn covariance(m: Seq<Seq<real>>, n: nat) -> bool {
    psd(m, n) && symmetric(m)
}

/// The sum of the entries on the diagonal.
pub open spec fn trace(m: Seq<Seq<real>>) -> real {
    sum(m.len(), |i: int| m[i][i])
}

/// The quadratic form of `j * c * jᵗ` at `v` is that of `c` at `jᵗ * v`.
pub proof fn lemma_quad_congruence(
    j: Seq<Seq<real>>,
    c: Seq<Seq<real>>,
    v: Seq<Seq<real>>,
    r: nat,
    n: nat,
)
    requires
        shaped(j, r, n),
        shaped(c, n, n),
        shaped(v, r, 1),
        r > 0,
        n > 0,
    ensures
        shaped(mat_mul(transpose(j), v), n, 1),
        quad(congruence(j, c), v) == quad(c, mat_mul(transpose(j), v)),
{
    let jt = transpose(j);
    let jc = mat_mul(j, c);
    let w = mat_mul(jt, v);
    let vt = transpose(v);
    lemma_transpose_shape(j, r, n);
    lemma_transpose_shape(v, r, 1);
    lemma_mul_shape(j, c, r, n, n);
    lemma_mul_shape(jt, v, n, r, 1);
    lemma_mul_shape(c, w, n, n, 1);
    // (j c jt) v == (j c) (jt v) == j (c w)
    lemma_mul_assoc(jc, jt, v, r, n, r, 1);
    lemma_mul_assoc(j, c, w, r, n, n, 1);
    // vt (j (c w)) == (vt j) (c w), and vt j == wt
    lemma_mul_assoc(vt, j, mat_mul(c, w), 1, r, n, 1);
    lemma_transpose_mul(jt, v, n, r, 1);
    lemma_transpose_involutive(j, r, n);
}

/// A covariance carried along by a linear map is a covariance.
pub proof fn lemma_covariance_congruence(j: Seq<Seq<real>>, c: Seq<Seq<real>>, r: nat, n: nat)
    requires
        shaped(j, r, n),
        psd(c, n),
        r > 0,
        n > 0,
    ensures
        psd(congruence(j, c), r),
        symmetric(c) ==> symmetric(congruence(j, c)),
{
    let m = congruence(j, c);
    lemma_transpose_shape(j, r, n);
    lemma_mul_shape(j, c, r, n, n);
    lemma_mul_shape(mat_mul(j, c), transpose(j), r, n, r);
    assert forall|v: Seq<Seq<real>>| shaped(v, r, 1) implies #[trigger] quad(m, v) >= 0real by {
        lemma_quad_congruence(j, c, v, r, n);
        assert(quad(c, mat_mul(transpose(j), v)) >= 0real);
    }
    if symmetric(c) {
        lemma_congruence_symmetric(j, c, r, n);
    }
}

/// The quadratic form of a sum is the sum of the quadratic forms.
pub proof fn lemma_quad_add(a: Seq<Seq<real>>, b: Seq<Seq<real>>, v: Seq<Seq<real>>, n: nat)
    requires
        shaped(a, n, n),
        shaped(b, n, n),
        shaped(v, n, 1),
        n > 0,
    ensures
        quad(mat_add(a, b), v) == quad(a, v) + quad(b, v),
{
    let vt = transpose(v);
    lemma_transpose_shape(v, n, 1);
    lemma_mul_shape(a, v, n, n, 1);
    lemma_mul_shape(b, v, n, n, 1);
    lemma_mul_distributes_add_left(a, b, v, n, n, 1);
    lemma_mul_distributes_add(vt, mat_mul(a, v), mat_mul(b, v), 1, n, 1);
    lemma_mul_shape(vt, mat_mul(a, v), 1, n, 1);
}

/// The quadratic form of a difference is the difference of the quadratic
/// forms.
pub proof fn lemma_quad_sub(a: Seq<Seq<real>>, b: Seq<Seq<real>>, v: Seq<Seq<real>>, n: nat)
    requires
        shaped(a, n, n),
        shaped(b, n, n),
        shaped(v, n, 1),
        n > 0,
    ensures
        quad(mat_sub(a, b), v) == quad(a, v) - quad(b, v),
{
    let vt = transpose(v);
    lemma_transpose_shape(v, n, 1);
    lemma_mul_shape(a, v, n, n, 1);
    lemma_mul_shape(b, v, n, n, 1);
    lemma_mul_distributes_sub_left(a, b, v, n, n, 1);
    lemma_mul_distributes_sub(vt, mat_mul(a, v), mat_mul(b, v), 1, n, 1);
    lemma_mul_shape(vt, mat_mul(a, v), 1, n, 1);
}

/// The column of size `n` with one in place `i`.
pub open spec fn unit(i: int, n: nat) -> Seq<Seq<real>> {
    Seq::new(n, |k: int| seq![if k == i { 1real } else { 0real }])
}

/// The quadratic form at a unit column is an entry of the diagonal.
pub proof fn lemma_quad_unit(m: Seq<Seq<real>>, i: int, n: nat)
    requires
        shaped(m, n, n),
        0 <= i < n,
    ensures
        shaped(unit(i, n), n, 1),
        quad(m, unit(i, n)) == m[i][i],
{
    let e = unit(i, n);
    let me = mat_mul(m, e);
    let et = transpose(e);
    assert(shaped(e, n, 1));
    lemma_transpose_shape(e, n, 1);
    lemma_mul_shape(m, e, n, n, 1);
    assert forall|r: int| 0 <= r < n implies me[r][0] == m[r][i] by {
        let f = |k: int| m[r][k] * column(e, 0)[k];
        assert forall|k: int| 0 <= k < n && k != i implies #[trigger] f(k) == 0real by {
            assert(column(e, 0)[k] == 0real);
            assert(m[r][k] * 0real == 0real) by (nonlinear_arith);
        }
        lemma_sum_single(n, f, i);
        assert(column(e, 0)[i] == 1real);
        assert(m[r][i] * 1real == m[r][i]) by (nonlinear_arith);
        assert(me[r][0] == sum(n, f));
    }
    let g = |k: int| et[0][k] * column(me, 0)[k];
    assert forall|k: int| 0 <= k < n && k != i implies #[trigger] g(k) == 0real by {
        assert(et[0][k] == 0real);
        assert(0real * column(me, 0)[k] == 0real) by (nonlinear_arith);
    }
    lemma_sum_single(n, g, i);
    assert(et[0][i] == 1real);
    assert(column(me, 0)[i] == me[i][0]);
    assert(1real * me[i][0] == me[i][0]) by (nonlinear_arith);
    assert(mat_mul(et, me)[0][0] == sum(n, g));
}

/// The trace of a matrix whose quadratic form is never negative is not
/// negative.
pub proof fn lemma_trace_nonnegative(m: Seq<Seq<real>>, n: nat)
    requires
        psd(m, n),
    ensures
        trace(m) >= 0real,
{
    let f = |i: int| m[i][i];
    assert forall|i: int| 0 <= i < n implies #[trigger] f(i) >= 0real by {
        lemma_quad_unit(m, i, n);
        assert(quad(m, unit(i, n)) >= 0real);
    }
    lemma_sum_nonnegative(n, f);
}

/// The trace of a difference is the difference of the traces.
pub proof fn lemma_trace_sub(a: Seq<Seq<real>>, b: Seq<Seq<real>>, n: nat)
    requires
        shaped(a, n, n),
        shaped(b, n, n),
    ensures
        trace(mat_sub(a, b)) == trace(a) - trace(b),
{
    let d = mat_sub(a, b);
    let f = |i: int| a[i][i];
    let g = |i: int| b[i][i];
    let h = |i: int| d[i][i];
    assert forall|i: int| 0 <= i < n implies #[trigger] h(i) == f(i) - g(i) by {
        assert(d[i][i] == a[i][i] - b[i][i]);
    }
    lemma_sum_sub(n, f, g, h);
}

/// The inverse of a covariance is a covariance.
pub proof fn lemma_inverse_covariance(s: Seq<Seq<real>>, w: Seq<Seq<real>>, n: nat)
    requires
        covariance(s, n),
        inverse_pair(w, s, n),
        n > 0,
    ensures
        covariance(w, n),
        transpose(w) == w,
{
    let wt = transpose(w);
    let id = identity(n);
    lemma_transpose_shape(w, n, n);
    lemma_symmetric_transpose(s, n);
    lemma_identity_symmetric(n);
    // wt * s == (s * w)t == 1, so wt == wt * (s * w) == (wt * s) * w == w
    lemma_transpose_mul(s, w, n, n, n);
    assert(mat_mul(wt, s) == id);
    lemma_mul_assoc(wt, s, w, n, n, n, n);
    lemma_mul_identity_right(wt, n, n);
    lemma_mul_identity_left(w, n, n);
    assert(wt == w);
    assert forall|a: int, b: int| 0 <= a < w.len() && 0 <= b < w.len() implies w[a][b]
        == w[b][a] by {
        assert(wt[a][b] == w[b][a]);
    }
    assert forall|v: Seq<Seq<real>>| shaped(v, n, 1) implies #[trigger] quad(w, v) >= 0real by {
        let u = mat_mul(w, v);
        let vt = transpose(v);
        lemma_mul_shape(w, v, n, n, 1);
        lemma_transpose_shape(v, n, 1);
        // s * u == v
        lemma_mul_assoc(s, w, v, n, n, n, 1);
        lemma_mul_identity_left(v, n, 1);
        assert(mat_mul(s, u) == v);
        // ut == vt * wt == vt * w
        lemma_transpose_mul(w, v, n, n, 1);
        assert(transpose(u) == mat_mul(vt, w));
        // quad(s, u) == ut * v == (vt * w) * v == vt * (w * v) == quad(w, v)
        lemma_mul_assoc(vt, w, v, 1, n, n, 1);
        assert(quad(s, u) == quad(w, v));
        assert(quad(s, u) >= 0real);
    }
}

/// The sum of two covariances is a covariance.
pub proof fn lemma_covariance_add(a: Seq<Seq<real>>, b: Seq<Seq<real>>, n: nat)
    requires
        psd(a, n),
        psd(b, n),
        n > 0,
    ensures
        psd(mat_add(a, b), n),
        symmetric(a) && symmetric(b) ==> symmetric(mat_add(a, b)),
{
    let m = mat_add(a, b);
    assert(shaped(m, n, n));
    assert forall|v: Seq<Seq<real>>| shaped(v, n, 1) implies #[trigger] quad(m, v) >= 0real by {
        lemma_quad_add(a, b, v, n);
        assert(quad(a, v) >= 0real && quad(b, v) >= 0real);
    }
}

/// The filtered covariance `(1 - k * h) * c` for the gain `k = c * hᵗ * w`.
pub open spec fn filtered_covariance(c: Seq<Seq<real>>, h: Seq<Seq<real>>, w: Seq<Seq<real>>) -> Seq<
    Seq<real>,
> {
    mat_mul(mat_sub(identity(c.len()), mat_mul(gain(c, h, w), h)), c)
}

/// What a hit takes off a covariance: `c - (1 - k * h) * c` is the inverse
/// `w` of the covariance of the residual, carried along by `c * hᵗ`.
pub proof fn lemma_filter_takes_off(
    c: Seq<Seq<real>>,
    h: Seq<Seq<real>>,
    w: Seq<Seq<real>>,
    n: nat,
    m: nat,
)
    requires
        shaped(c, n, n),
        symmetric(c),
        shaped(h, m, n),
        shaped(w, m, m),
        n > 0,
        m > 0,
    ensures
        shaped(filtered_covariance(c, h, w), n, n),
        mat_sub(c, filtered_covariance(c, h, w)) == congruence(mat_mul(c, transpose(h)), w),
        filtered_covariance(c, h, w) == mat_sub(c, congruence(mat_mul(c, transpose(h)), w)),
{
    let ht = transpose(h);
    let ch = mat_mul(c, ht);
    let k = gain(c, h, w);
    let kh = mat_mul(k, h);
    let id = identity(n);
    let cf = filtered_covariance(c, h, w);
    lemma_transpose_shape(h, m, n);
    lemma_mul_shape(c, ht, n, n, m);
    lemma_mul_shape(ch, w, n, m, m);
    lemma_mul_shape(k, h, n, m, n);
    lemma_mul_shape(kh, c, n, n, n);
    // cf == c - (k h) c
    lemma_mul_distributes_sub_left(id, kh, c, n, n, n);
    lemma_mul_identity_left(c, n, n);
    let khc = mat_mul(kh, c);
    assert(cf == mat_sub(c, khc));
    // (c ht)t == h c
    lemma_transpose_mul(c, ht, n, n, m);
    lemma_transpose_involutive(h, m, n);
    lemma_symmetric_transpose(c, n);
    assert(transpose(ch) == mat_mul(h, c));
    // (k h) c == k (h c) == (ch w) (ch)t
    lemma_mul_assoc(k, h, c, n, m, n, n);
    assert(khc == congruence(ch, w));
    assert(mat_sub(c, cf) =~= khc) by {
        assert forall|i: int| 0 <= i < n implies #[trigger] mat_sub(c, cf)[i] =~= khc[i] by {
            assert forall|j: int| 0 <= j < n implies mat_sub(c, cf)[i][j] == khc[i][j] by {
                assert(cf[i][j] == c[i][j] - khc[i][j]);
            }
        }
    }
}

/// The filtered covariance in the form that shows it to be a covariance:
/// `(1 - k h) c (1 - k h)ᵗ + k v kᵗ`.
pub proof fn lemma_filtered_covariance_form(
    c: Seq<Seq<real>>,
    v: Seq<Seq<real>>,
    h: Seq<Seq<real>>,
    w: Seq<Seq<real>>,
    n: nat,
    m: nat,
)
    requires
        shaped(c, n, n),
        symmetric(c),
        shaped(v, m, m),
        shaped(h, m, n),
        inverse_pair(w, residual_covariance(v, h, c), m),
        n > 0,
        m > 0,
    ensures
        filtered_covariance(c, h, w) == mat_add(
            congruence(mat_sub(identity(n), mat_mul(gain(c, h, w), h)), c),
            congruence(gain(c, h, w), v),
        ),
{
    let ht = transpose(h);
    let ch = mat_mul(c, ht);
    let k = gain(c, h, w);
    let kt = transpose(k);
    let kh = mat_mul(k, h);
    let id = identity(n);
    let a = mat_sub(id, kh);
    let cf = filtered_covariance(c, h, w);
    let q = congruence(h, c);
    let s = residual_covariance(v, h, c);
    lemma_transpose_shape(h, m, n);
    lemma_mul_shape(c, ht, n, n, m);
    lemma_mul_shape(ch, w, n, m, m);
    lemma_transpose_shape(k, n, m);
    lemma_mul_shape(k, h, n, m, n);
    lemma_mul_shape(h, c, m, n, n);
    lemma_mul_shape(mat_mul(h, c), ht, m, n, m);
    lemma_identity_symmetric(n);
    lemma_filter_takes_off(c, h, w, n, m);
    assert(shaped(a, n, n));
    assert(cf == mat_mul(a, c));
    // at == 1 - ht kt
    lemma_transpose_sub(id, kh, n, n);
    lemma_transpose_mul(k, h, n, m, n);
    let htkt = mat_mul(ht, kt);
    lemma_mul_shape(ht, kt, n, m, n);
    assert(transpose(a) == mat_sub(id, htkt));
    // cf at == cf - (cf ht) kt
    lemma_mul_distributes_sub(cf, id, htkt, n, n, n);
    lemma_mul_identity_right(cf, n, n);
    lemma_mul_assoc(cf, ht, kt, n, n, m, n);
    let cfht = mat_mul(cf, ht);
    assert(congruence(a, c) == mat_sub(cf, mat_mul(cfht, kt)));
    // cf ht == ch - k q
    let khc = mat_mul(kh, c);
    lemma_mul_shape(kh, c, n, n, n);
    lemma_mul_distributes_sub_left(id, kh, c, n, n, n);
    lemma_mul_identity_left(c, n, n);
    assert(cf == mat_sub(c, khc));
    lemma_mul_distributes_sub_left(c, khc, ht, n, n, m);
    lemma_mul_assoc(kh, c, ht, n, n, n, m);
    lemma_mul_assoc(k, h, ch, n, m, n, m);
    lemma_mul_assoc(h, c, ht, m, n, n, m);
    let kq = mat_mul(k, q);
    lemma_mul_shape(k, q, n, m, m);
    assert(cfht == mat_sub(ch, kq));
    // k s == ch, and s == q + v entry by entry
    lemma_mul_assoc(ch, w, s, n, m, m, m);
    lemma_mul_identity_right(ch, n, m);
    assert(mat_mul(k, s) == ch);
    let qv = mat_add(q, v);
    assert(s =~= qv) by {
        assert forall|i: int| 0 <= i < m implies #[trigger] s[i] =~= qv[i] by {
            assert forall|j: int| 0 <= j < m implies s[i][j] == qv[i][j] by {
                assert(s[i][j] == v[i][j] + q[i][j]);
            }
        }
    }
    lemma_mul_distributes_add(k, q, v, n, m, m);
    let kv = mat_mul(k, v);
    lemma_mul_shape(k, v, n, m, m);
    assert(ch == mat_add(kq, kv));
    // so (cf ht) kt == (ch - kq) kt == (kv) kt
    assert(cfht =~= kv) by {
        assert forall|i: int| 0 <= i < n implies #[trigger] cfht[i] =~= kv[i] by {
            assert forall|j: int| 0 <= j < m implies cfht[i][j] == kv[i][j] by {
                assert(ch[i][j] == kq[i][j] + kv[i][j]);
                assert(cfht[i][j] == ch[i][j] - kq[i][j]);
            }
        }
    }
    let kvk = congruence(k, v);
    lemma_mul_shape(kv, kt, n, m, n);
    let total = mat_add(mat_sub(cf, kvk), kvk);
    assert(cf =~= total) by {
        assert forall|i: int| 0 <= i < n implies #[trigger] cf[i] =~= total[i] by {
            assert forall|j: int| 0 <= j < n implies cf[i][j] == total[i][j] by {
                assert(total[i][j] == (cf[i][j] - kvk[i][j]) + kvk[i][j]);
            }
        }
    }
}

/// The filter makes a covariance of a covariance, and never a larger one:
/// what it takes off is itself a covariance.
pub proof fn lemma_filter_keeps_covariance(
    c: Seq<Seq<real>>,
    v: Seq<Seq<real>>,
    h: Seq<Seq<real>>,
    w: Seq<Seq<real>>,
    n: nat,
    m: nat,
)
    requires
        covariance(c, n),
        covariance(v, m),
        shaped(h, m, n),
        inverse_pair(w, residual_covariance(v, h, c), m),
        n > 0,
        m > 0,
    ensures
        covariance(filtered_covariance(c, h, w), n),
        psd(mat_sub(c, filtered_covariance(c, h, w)), n),
{
    let ht = transpose(h);
    let ch = mat_mul(c, ht);
    let k = gain(c, h, w);
    let kh = mat_mul(k, h);
    let a = mat_sub(identity(n), kh);
    let cf = filtered_covariance(c, h, w);
    let s = residual_covariance(v, h, c);
    lemma_transpose_shape(h, m, n);
    lemma_mul_shape(c, ht, n, n, m);
    lemma_mul_shape(ch, w, n, m, m);
    lemma_mul_shape(k, h, n, m, n);
    lemma_identity_symmetric(n);
    assert(shaped(a, n, n));
    // the covariance of the residual and its inverse are covariances
    lemma_covariance_congruence(h, c, m, n);
    lemma_covariance_add(v, congruence(h, c), m);
    lemma_inverse_covariance(s, w, m);
    // what is taken off
    lemma_filter_takes_off(c, h, w, n, m);
    lemma_covariance_congruence(ch, w, n, m);
    let off = congruence(ch, w);
    // what is left
    lemma_filtered_covariance_form(c, v, h, w, n, m);
    lemma_covariance_congruence(a, c, n, n);
    lemma_covariance_congruence(k, v, n, m);
    lemma_covariance_add(congruence(a, c), congruence(k, v), n);
    assert forall|i: int, j: int| 0 <= i < cf.len() && 0 <= j < cf.len() implies cf[i][j]
        == cf[j][i] by {
        assert(cf[i][j] == c[i][j] - off[i][j]);
        assert(cf[j][i] == c[j][i] - off[j][i]);
    }
}

/// A matrix less itself has a quadratic form that is never negative.
pub proof fn lemma_nothing_is_psd(c: Seq<Seq<real>>, n: nat)
    requires
        shaped(c, n, n),
        n > 0,
    ensures
        psd(mat_sub(c, c), n),
{
    let z = mat_sub(c, c);
    assert forall|v: Seq<Seq<real>>| shaped(v, n, 1) implies #[trigger] quad(z, v) >= 0real by {
        lemma_quad_sub(c, c, v, n);
    }
}

/// If `b` is no larger than `a`, and `c` no larger than `b`, then `c` is no
/// larger than `a`.
pub proof fn lemma_order_is_transitive(
    a: Seq<Seq<real>>,
    b: Seq<Seq<real>>,
    c: Seq<Seq<real>>,
    n: nat,
)
    requires
        shaped(a, n, n),
        shaped(b, n, n),
        shaped(c, n, n),
        psd(mat_sub(a, b), n),
        psd(mat_sub(b, c), n),
        n > 0,
    ensures
        psd(mat_sub(a, c), n),
{
    let ab = mat_sub(a, b);
    let bc = mat_sub(b, c);
    let ac = mat_sub(a, c);
    lemma_covariance_add(ab, bc, n);
    let total = mat_add(ab, bc);
    assert(total =~= ac) by {
        assert forall|i: int| 0 <= i < n implies #[trigger] total[i] =~= ac[i] by {
            assert forall|j: int| 0 <= j < n implies total[i][j] == ac[i][j] by {
                assert(total[i][j] == (a[i][j] - b[i][j]) + (b[i][j] - c[i][j]));
            }
        }
    }
}

/// Smoothing never adds to a covariance: when the smoothed covariance of
/// the next sensor is no larger than the predicted one, the smoothed
/// covariance `cf + a * (cs - cp) * aᵗ` is no larger than the filtered `cf`.
pub proof fn lemma_smoother_never_adds(
    cf: Seq<Seq<real>>,
    a: Seq<Seq<real>>,
    cp: Seq<Seq<real>>,
    cs: Seq<Seq<real>>,
    n: nat,
)
    requires
        shaped(cf, n, n),
        shaped(a, n, n),
        shaped(cp, n, n),
        shaped(cs, n, n),
        psd(mat_sub(cp, cs), n),
        n > 0,
    ensures
        shaped(mat_add(cf, congruence(a, mat_sub(cs, cp))), n, n),
        psd(mat_sub(cf, mat_add(cf, congruence(a, mat_sub(cs, cp)))), n),
{
    let at = transpose(a);
    let up = mat_sub(cs, cp);
    let down = mat_sub(cp, cs);
    let x = congruence(a, cs);
    let y = congruence(a, cp);
    lemma_transpose_shape(a, n, n);
    lemma_mul_shape(a, cs, n, n, n);
    lemma_mul_shape(a, cp, n, n, n);
    lemma_mul_shape(mat_mul(a, cs), at, n, n, n);
    lemma_mul_shape(mat_mul(a, cp), at, n, n, n);
    // a (cs - cp) at == x - y, and a (cp - cs) at == y - x
    lemma_mul_distributes_sub(a, cs, cp, n, n, n);
    lemma_mul_distributes_sub_left(mat_mul(a, cs), mat_mul(a, cp), at, n, n, n);
    lemma_mul_distributes_sub(a, cp, cs, n, n, n);
    lemma_mul_distributes_sub_left(mat_mul(a, cp), mat_mul(a, cs), at, n, n, n);
    assert(congruence(a, up) == mat_sub(x, y));
    assert(congruence(a, down) == mat_sub(y, x));
    lemma_covariance_congruence(a, down, n, n);
    let smoothed = mat_add(cf, congruence(a, up));
    let less = mat_sub(cf, smoothed);
    let yx = mat_sub(y, x);
    assert(less =~= yx) by {
        assert forall|i: int| 0 <= i < n implies #[trigger] less[i] =~= yx[i] by {
            assert forall|j: int| 0 <= j < n implies less[i][j] == yx[i][j] by {
                assert(smoothed[i][j] == cf[i][j] + (x[i][j] - y[i][j]));
            }
        }
    }
}

/// Along a forward pass every predicted and every filtered covariance is a
/// covariance, and the filtered one is no larger than the predicted one.
pub proof fn lemma_forward_keeps_covariance<T: Transform>(track: Track<T>, i: int)
    requires
        0 <= i < track.sensors.len(),
        covariance(track.seed.1, 5),
        covariance(track.noise, 2),
        jacobians_shaped(track.jacobians, track.sensors.len()),
        q_forward(track, i) is Ok,
    ensures
        covariance(q_forward(track, i)->Ok_0.pred.1, 5),
        covariance(q_forward(track, i)->Ok_0.filt.1, 5),
        psd(mat_sub(q_forward(track, i)->Ok_0.pred.1, q_forward(track, i)->Ok_0.filt.1), 5),
    decreases i,
{
    let step = q_forward(track, i)->Ok_0;
    let h = selector();
    assert(shaped(h, 2, 5));
    if i > 0 {
        lemma_forward_keeps_covariance(track, i - 1);
        let before = q_forward(track, i - 1)->Ok_0;
        assert(shaped(track.jacobians[i - 1], 5, 5));
        assert(step.pred.1 == congruence(track.jacobians[i - 1], before.filt.1));
        lemma_covariance_congruence(track.jacobians[i - 1], before.filt.1, 5, 5);
    }
    let (x, c) = step.pred;
    assert(covariance(c, 5));
    lemma_filtered_is_exact(x, c, track.hits[i], track.noise, h);
    let s = residual_covariance(track.noise, h, c);
    let w = q_inverse(s)->Ok_0;
    assert(step.filt.1 == filtered_covariance(c, h, w));
    lemma_filter_keeps_covariance(c, track.noise, h, w, 5, 2);
}

/// Along a backward pass no smoothed covariance is larger than the filtered
/// covariance of its sensor.
pub proof fn lemma_backward_never_adds<T: Transform>(track: Track<T>, i: int)
    requires
        0 <= i < track.sensors.len(),
        covariance(track.seed.1, 5),
        covariance(track.noise, 2),
        jacobians_shaped(track.jacobians, track.sensors.len()),
        q_forward(track, track.sensors.len() - 1) is Ok,
        q_backward(track.jacobians, forward_steps(track, track.sensors.len()), i) is Ok,
    ensures
        ({
            let steps = forward_steps(track, track.sensors.len());
            let smoothed = q_backward(track.jacobians, steps, i)->Ok_0;
            &&& shaped(smoothed.1, 5, 5)
            &&& steps[i] == q_forward(track, i)->Ok_0
            &&& psd(mat_sub(steps[i].filt.1, smoothed.1), 5)
        }),
    decreases track.sensors.len() - i,
{
    let n = track.sensors.len();
    let steps = forward_steps(track, n);
    lemma_forward_success_before(track, i, n - 1);
    lemma_forward_keeps_covariance(track, i);
    let cf = steps[i].filt.1;
    if i >= n - 1 {
        lemma_nothing_is_psd(cf, 5);
    } else {
        lemma_forward_success_before(track, i + 1, n - 1);
        lemma_forward_keeps_covariance(track, i + 1);
        lemma_backward_never_adds(track, i + 1);
        let next = q_backward(track.jacobians, steps, i + 1)->Ok_0;
        let cp = steps[i + 1].pred.1;
        let cfn = steps[i + 1].filt.1;
        let cs = next.1;
        lemma_order_is_transitive(cp, cfn, cs, 5);
        let f = track.jacobians[i];
        assert(shaped(f, 5, 5));
        lemma_smoothed_is_exact(steps[i].filt, f, steps[i + 1].pred, next);
        let w = q_inverse(cp)->Ok_0;
        let a = gain(cf, f, w);
        lemma_transpose_shape(f, 5, 5);
        lemma_mul_shape(cf, transpose(f), 5, 5, 5);
        lemma_mul_shape(mat_mul(cf, transpose(f)), w, 5, 5, 5);
        lemma_smoother_never_adds(cf, a, cp, cs, 5);
    }
}

/// Smoothing never loses information: in a fit that succeeds from a
/// covariance, with hits whose noise is a covariance, the trace of the
/// smoothed covariance of every sensor is at most the trace of its filtered
/// covariance.
pub proof fn lemma_smoothing_never_loses<T: Transform>(track: Track<T>, i: int)
    requires
        0 <= i < track.sensors.len(),
        covariance(track.seed.1, 5),
        covariance(track.noise, 2),
        jacobians_shaped(track.jacobians, track.sensors.len()),
        fit_error(track) is None,
    ensures
        q_forward(track, i) is Ok,
        q_backward(track.jacobians, forward_steps(track, track.sensors.len()), i) is Ok,
        trace(q_backward(track.jacobians, forward_steps(track, track.sensors.len()), i)->Ok_0.1)
            <= trace(q_forward(track, i)->Ok_0.filt.1),
{
    let n = track.sensors.len();
    let steps = forward_steps(track, n);
    lemma_forward_success_before(track, i, n - 1);
    if q_backward(track.jacobians, steps, i) is Err {
        lemma_backward_failure_stays(track.jacobians, steps, 0, i);
    }
    lemma_forward_keeps_covariance(track, i);
    lemma_backward_never_adds(track, i);
    let cf = q_forward(track, i)->Ok_0.filt.1;
    let cs = q_backward(track.jacobians, steps, i)->Ok_0.1;
    lemma_trace_nonnegative(mat_sub(cf, cs), 5);
    lemma_trace_sub(cf, cs, 5);
}

} // verus!