//! Affine maps of space, written as homogeneous matrices of size four.
//!
//! A map is applied by its first three rows alone: `p` goes to `a * p + t`,
//! where `a` is the upper left block and `t` the top of the last column. A
//! matrix whose last row is `0 0 0 1` is called affine here; for such a
//! matrix the map of its inverse undoes its own.
use vstd::prelude::*;
use crate::config::P3;
use crate::inverse::inverse_pair;
use crate::matrix::{entries, Matrix};
use crate::rational::Rational;
use crate::real_matrix::{
    column, lemma_mul_assoc, lemma_mul_identity_left, lemma_mul_identity_right, lemma_mul_shape,
    lemma_sum_single, mat_mul, mul_defined, shaped, sum,
};

verus! {

/// The point `p` with a fourth coordinate of one.
pub open spec fn homogeneous(p: Seq<Seq<real>>) -> Seq<Seq<real>> {
    p.push(seq![1real])
}

/// The first three rows of a homogeneous matrix.
pub open spec fn affine_part(m: Seq<Seq<real>>) -> Seq<Seq<real>> {
    m.take(3)
}

/// The image of the point `p` under the map of `m`.
pub open spec fn affine_apply(m: Seq<Seq<real>>, p: Seq<Seq<real>>) -> Seq<Seq<real>> {
    mat_mul(affine_part(m), homogeneous(p))
}

/// The image of `p` under the map of `m` can be computed in stored numbers.
pub open spec fn affine_defined(m: Seq<Seq<real>>, p: Seq<Seq<real>>) -> bool {
    mul_defined(affine_part(m), homogeneous(p))
}

/// The last row of `m` is `0 0 0 1`.
pub open spec fn is_affine(m: Seq<Seq<real>>) -> bool {
    &&& shaped(m, 4, 4)
    &&& m[3] == seq![0real, 0real, 0real, 1real]
}

/// The first three rows of a product are the product of the first three rows.
pub proof fn lemma_affine_part_mul(m: Seq<Seq<real>>, x: Seq<Seq<real>>, c: nat)
    requires
        shaped(m, 4, 4),
        shaped(x, 4, c),
    ensures
        mat_mul(affine_part(m), x) == mat_mul(m, x).take(3),
{
    let l = mat_mul(affine_part(m), x);
    let r = mat_mul(m, x).take(3);
    assert(l.len() == 3 && r.len() == 3);
    assert forall|i: int| 0 <= i < 3 implies #[trigger] l[i] =~= r[i] by {
        assert(affine_part(m)[i] == m[i]);
        assert(r[i] == mat_mul(m, x)[i]);
    }
    assert(l =~= r);
}

/// An affine matrix sends a point with fourth coordinate one to such a point.
pub proof fn lemma_affine_keeps_homogeneous(m: Seq<Seq<real>>, p: Seq<Seq<real>>)
    requires
        is_affine(m),
        shaped(p, 3, 1),
    ensures
        shaped(affine_apply(m, p), 3, 1),
        mat_mul(m, homogeneous(p)) == homogeneous(affine_apply(m, p)),
{
    let h = homogeneous(p);
    assert(shaped(h, 4, 1));
    let mh = mat_mul(m, h);
    lemma_affine_part_mul(m, h, 1);
    let want = homogeneous(affine_apply(m, p));
    assert(mh.len() == 4 && want.len() == 4);
    assert forall|i: int| 0 <= i < 4 implies #[trigger] mh[i] =~= want[i] by {
        if i < 3 {
            assert(want[i] == affine_apply(m, p)[i]);
            assert(mh.take(3)[i] == mh[i]);
        } else {
            let f = |k: int| m[3][k] * column(h, 0)[k];
            assert forall|k: int| 0 <= k < 4 && k != 3 implies #[trigger] f(k) == 0real by {
                assert(m[3][k] == 0real);
                assert(0real * column(h, 0)[k] == 0real) by (nonlinear_arith);
            }
            lemma_sum_single(4, f, 3);
            assert(column(h, 0)[3] == h[3][0]);
            assert(h[3][0] == 1real);
            assert(m[3][3] == 1real);
            assert(f(3) == 1real) by (nonlinear_arith)
                requires
                    f(3) == m[3][3] * column(h, 0)[3],
                    m[3][3] == 1real,
                    column(h, 0)[3] == 1real,
            ;
            assert(mh[3][0] == sum(4, f));
            assert(want[3] == seq![1real]);
        }
    }
    assert(mh =~= want);
}

/// The map of the inverse of an affine matrix undoes the map of the matrix:
/// a point carried over and back is the point itself.
pub proof fn lemma_affine_round_trip(m: Seq<Seq<real>>, x: Seq<Seq<real>>, p: Seq<Seq<real>>)
    requires
        inverse_pair(x, m, 4),
        is_affine(m),
        shaped(p, 3, 1),
    ensures
        affine_apply(x, affine_apply(m, p)) == p,
{
    let h = homogeneous(p);
    assert(shaped(h, 4, 1));
    let q = affine_apply(m, p);
    lemma_affine_keeps_homogeneous(m, p);
    let mh = mat_mul(m, h);
    assert(mh == homogeneous(q));
    lemma_mul_shape(m, h, 4, 4, 1);
    lemma_affine_part_mul(x, mh, 1);
    lemma_mul_assoc(x, m, h, 4, 4, 4, 1);
    lemma_mul_identity_left(h, 4, 1);
    assert(mat_mul(x, mh) == h);
    assert(h.take(3) =~= p);
}

/// The inverse of an affine matrix is affine.
pub proof fn lemma_inverse_is_affine(m: Seq<Seq<real>>, x: Seq<Seq<real>>)
    requires
        inverse_pair(x, m, 4),
        is_affine(m),
    ensures
        is_affine(x),
{
    let e: Seq<Seq<real>> = seq![seq![0real, 0real, 0real, 1real]];
    assert(shaped(e, 1, 4));
    lemma_picks_last_row(e, m);
    lemma_picks_last_row(e, x);
    assert(seq![m[3]] =~= e);
    assert(mat_mul(e, m) == e);
    lemma_mul_assoc(e, m, x, 1, 4, 4, 4);
    lemma_mul_identity_right(e, 1, 4);
    assert(mat_mul(e, x) == e);
    assert(seq![x[3]][0] == e[0]);
}

/// The row `0 0 0 1` times a matrix is the last row of the matrix.
proof fn lemma_picks_last_row(e: Seq<Seq<real>>, m: Seq<Seq<real>>)
    requires
        e == seq![seq![0real, 0real, 0real, 1real]],
        shaped(m, 4, 4),
    ensures
        mat_mul(e, m) == seq![m[3]],
{
    let p = mat_mul(e, m);
    assert(p.len() == 1);
    assert(p[0].len() == 4);
    assert forall|j: int| 0 <= j < 4 implies p[0][j] == m[3][j] by {
        let f = |k: int| e[0][k] * column(m, j)[k];
        assert forall|k: int| 0 <= k < 4 && k != 3 implies #[trigger] f(k) == 0real by {
            assert(e[0][k] == 0real);
            assert(0real * column(m, j)[k] == 0real) by (nonlinear_arith);
        }
        lemma_sum_single(4, f, 3);
        assert(e[0][3] == 1real);
        assert(column(m, j)[3] == m[3][j]);
        assert(f(3) == m[3][j]) by (nonlinear_arith)
            requires
                f(3) == e[0][3] * column(m, j)[3],
                e[0][3] == 1real,
                column(m, j)[3] == m[3][j],
        ;
        assert(p[0][j] == sum(4, f));
    }
    assert(p[0] =~= m[3]);
    assert(p =~= seq![m[3]]);
}

/// The map of an affine matrix and the map of its inverse undo each other,
/// in either order.
pub proof fn lemma_affine_maps_are_inverse(
    m: Seq<Seq<real>>,
    x: Seq<Seq<real>>,
    p: Seq<Seq<real>>,
)
    requires
        inverse_pair(x, m, 4),
        is_affine(m),
        shaped(p, 3, 1),
    ensures
        affine_apply(x, affine_apply(m, p)) == p,
        affine_apply(m, affine_apply(x, p)) == p,
{
    lemma_affine_round_trip(m, x, p);
    lemma_inverse_is_affine(m, x);
    lemma_affine_round_trip(x, m, p);
}

/// The point `p` with a fourth coordinate of one.
pub fn to_homogeneous(p: &P3) -> (h: Matrix<4, 1>)
    ensures
        h@ == homogeneous(p@),
{
    p.shape();
    let mut rows: Vec<Vec<Rational>> = Vec::new();
    let mut i: usize = 0;
    while i < 3
        invariant
            i <= 3,
            rows.len() == i,
            forall|k: int| 0 <= k < i ==> (#[trigger] rows[k]).len() == 1,
            forall|k: int| 0 <= k < i ==> (#[trigger] rows[k][0])@ == p@[k][0],
        decreases 3 - i,
    {
        let mut row: Vec<Rational> = Vec::new();
        row.push(p.get(i, 0));
        rows.push(row);
        i = i + 1;
    }
    let mut last: Vec<Rational> = Vec::new();
    last.push(Rational::one());
    rows.push(last);
    proof {
        let e = entries(rows@);
        let want = homogeneous(p@);
        assert(e.len() == 4 && want.len() == 4);
        assert forall|k: int| 0 <= k < 4 implies #[trigger] e[k] =~= want[k] by {
            assert(rows[k].len() == 1);
            if k < 3 {
                assert(want[k] == p@[k]);
                assert(p@[k].len() == 1);
            }
        }
        assert(e =~= want);
    }
    match Matrix::<4, 1>::from_rows(rows) {
        Some(h) => h,
        None => {
            proof {
                assert(false);
            }
            Matrix::<4, 1>::filled(Rational::one())
        },
    }
}

/// The image of `p` under the map whose first three rows are `rows`.
///
/// `None` exactly when it cannot be computed in stored numbers.
pub fn apply_rows(rows: &Matrix<3, 4>, p: &P3) -> (r: Option<P3>)
    ensures
        match r {
            Some(q) => q@ == mat_mul(rows@, homogeneous(p@)) && mul_defined(
                rows@,
                homogeneous(p@),
            ),
            None => !mul_defined(rows@, homogeneous(p@)),
        },
{
    rows.mul(&to_homogeneous(p))
}

} // verus!
