//! Matrices of exact rational numbers with their shape in the type.
//!
//! The view of a matrix is the sequence of its rows as real numbers. Every
//! operation is exact: it returns the matrix that the mathematics gives, or
//! `None` when some number on the way cannot be stored.
use vstd::prelude::*;
use crate::rational::{Rational, representable};
use crate::real_matrix::{
    all_representable, column, dot, identity, lemma_q_dot_exact, mat_add, mat_mul, mat_sub,
    mul_defined, q_dot, q_dot_upto, shaped, sum, transpose, width,
};

verus! {

/// The numbers of `row` as real numbers.
pub open spec fn reals(row: Seq<Rational>) -> Seq<real> {
    Seq::new(row.len(), |j: int| row[j]@)
}

/// The rows of `rows` as sequences of real numbers.
pub open spec fn entries(rows: Seq<Vec<Rational>>) -> Seq<Seq<real>> {
    Seq::new(rows.len(), |i: int| reals(rows[i]@))
}

/// A matrix with `R` rows and `C` columns, both at least one.
#[derive(Debug)]
pub struct Matrix<const R: usize, const C: usize> {
    rows: Vec<Vec<Rational>>,
}

impl<const R: usize, const C: usize> View for Matrix<R, C> {
    type V = Seq<Seq<real>>;

    closed spec fn view(&self) -> Seq<Seq<real>> {
        entries(self.rows@)
    }
}

impl<const R: usize, const C: usize> Matrix<R, C> {
    #[verifier::type_invariant]
    spec fn well_formed(self) -> bool {
        &&& R > 0
        &&& C > 0
        &&& self.rows.len() == R
        &&& forall|i: int| 0 <= i < R ==> (#[trigger] self.rows[i]).len() == C
    }

    /// Does nothing when run; it tells the verifier that the view of a matrix
    /// has the shape that its type names.
    pub fn shape(&self)
        ensures
            shaped(self@, R as nat, C as nat),
            R > 0,
            C > 0,
            width(self@) == C,
    {
        proof {
            use_type_invariant(self);
            assert(self@[0].len() == C);
        }
    }

    /// The matrix with the given rows.
    ///
    /// `None` unless there are `R` rows of `C` entries each.
    pub fn from_rows(rows: Vec<Vec<Rational>>) -> (r: Option<Self>)
        ensures
            match r {
                Some(m) => m@ == entries(rows@) && shaped(m@, R as nat, C as nat),
                None => R == 0 || C == 0 || !shaped(entries(rows@), R as nat, C as nat),
            },
    {
        if R == 0 || C == 0 || rows.len() != R {
            return None;
        }
        let mut i: usize = 0;
        while i < R
            invariant
                i <= R,
                rows.len() == R,
                forall|k: int| 0 <= k < i ==> (#[trigger] rows[k]).len() == C,
            decreases R - i,
        {
            if rows[i].len() != C {
                assert(entries(rows@)[i as int].len() != C);
                return None;
            }
            i = i + 1;
        }
        Some(Matrix { rows })
    }

    /// The matrix whose entries all equal `x`.
    pub fn filled(x: Rational) -> (m: Self)
        requires
            R > 0,
            C > 0,
        ensures
            shaped(m@, R as nat, C as nat),
            forall|i: int, j: int| 0 <= i < R && 0 <= j < C ==> m@[i][j] == x@,
    {
        let mut rows: Vec<Vec<Rational>> = Vec::new();
        let mut i: usize = 0;
        while i < R
            invariant
                i <= R,
                rows.len() == i,
                forall|k: int| 0 <= k < i ==> (#[trigger] rows[k]).len() == C,
                forall|k: int, j: int| 0 <= k < i && 0 <= j < C ==> (#[trigger] rows[k][j])@ == x@,
            decreases R - i,
        {
            let mut row: Vec<Rational> = Vec::new();
            let mut j: usize = 0;
            while j < C
                invariant
                    j <= C,
                    row.len() == j,
                    forall|k: int| 0 <= k < j ==> (#[trigger] row[k])@ == x@,
                decreases C - j,
            {
                row.push(x);
                j = j + 1;
            }
            rows.push(row);
            i = i + 1;
        }
        Matrix { rows }
    }

    /// The entry in row `i` and column `j`.
    pub fn get(&self, i: usize, j: usize) -> (x: Rational)
        requires
            i < R,
            j < C,
        ensures
            x@ == self@[i as int][j as int],
    {
        proof {
            use_type_invariant(self);
        }
        self.rows[i][j]
    }

    /// The same matrix with the entry in row `i` and column `j` replaced.
    pub fn with_entry(&self, i: usize, j: usize, x: Rational) -> (m: Self)
        requires
            i < R,
            j < C,
        ensures
            m@ == self@.update(i as int, self@[i as int].update(j as int, x@)),
    {
        proof {
            use_type_invariant(self);
        }
        let mut rows: Vec<Vec<Rational>> = Vec::new();
        let mut a: usize = 0;
        while a < R
            invariant
                a <= R,
                i < R,
                j < C,
                self.rows.len() == R,
                forall|k: int| 0 <= k < R ==> (#[trigger] self.rows[k]).len() == C,
                rows.len() == a,
                forall|k: int| 0 <= k < a ==> (#[trigger] rows[k]).len() == C,
                forall|k: int, l: int|
                    0 <= k < a && 0 <= l < C ==> (#[trigger] rows[k][l])@ == (if k == i && l == j {
                        x@
                    } else {
                        self.rows[k][l]@
                    }),
            decreases R - a,
        {
            let mut row: Vec<Rational> = Vec::new();
            let mut b: usize = 0;
            while b < C
                invariant
                    b <= C,
                    a < R,
                    self.rows.len() == R,
                    self.rows[a as int].len() == C,
                    row.len() == b,
                    forall|l: int|
                        0 <= l < b ==> (#[trigger] row[l])@ == (if a == i && l == j {
                            x@
                        } else {
                            self.rows[a as int][l]@
                        }),
                decreases C - b,
            {
                let e: Rational = if a == i && b == j { x } else { self.rows[a][b] };
                row.push(e);
                b = b + 1;
            }
            rows.push(row);
            a = a + 1;
        }
        let m = Matrix { rows };
        proof {
            let want = self@.update(i as int, self@[i as int].update(j as int, x@));
            assert(m@.len() == want.len());
            assert forall|k: int| 0 <= k < R implies #[trigger] m@[k] =~= want[k] by {
                assert(m.rows[k].len() == C);
            }
            assert(m@ =~= want);
        }
        m
    }

    /// Every entry equals the entry of `rhs` in the same place.
    pub fn eq_value(&self, rhs: &Self) -> (b: bool)
        ensures
            b == (self@ == rhs@),
    {
        proof {
            use_type_invariant(self);
            use_type_invariant(rhs);
        }
        let mut i: usize = 0;
        while i < R
            invariant
                i <= R,
                self.rows.len() == R,
                rhs.rows.len() == R,
                forall|k: int| 0 <= k < R ==> (#[trigger] self.rows[k]).len() == C,
                forall|k: int| 0 <= k < R ==> (#[trigger] rhs.rows[k]).len() == C,
                forall|k: int, l: int|
                    0 <= k < i && 0 <= l < C ==> (#[trigger] self.rows[k][l])@ == rhs.rows[k][l]@,
            decreases R - i,
        {
            let mut j: usize = 0;
            while j < C
                invariant
                    j <= C,
                    i < R,
                    self.rows.len() == R,
                    rhs.rows.len() == R,
                    self.rows[i as int].len() == C,
                    rhs.rows[i as int].len() == C,
                    forall|l: int|
                        0 <= l < j ==> (#[trigger] self.rows[i as int][l])@ == rhs.rows[i as int][l]@,
                decreases C - j,
            {
                if !self.rows[i][j].eq_value(&rhs.rows[i][j]) {
                    assert(self@[i as int][j as int] != rhs@[i as int][j as int]);
                    return false;
                }
                j = j + 1;
            }
            i = i + 1;
        }
        proof {
            assert forall|k: int| 0 <= k < R implies #[trigger] self@[k] =~= rhs@[k] by {
                assert(self.rows[k].len() == C && rhs.rows[k].len() == C);
            }
            assert(self@ =~= rhs@);
        }
        true
    }

    /// A copy of the matrix.
    pub fn duplicate(&self) -> (m: Self)
        ensures
            m@ == self@,
    {
        proof {
            use_type_invariant(self);
        }
        let mut rows: Vec<Vec<Rational>> = Vec::new();
        let mut i: usize = 0;
        while i < R
            invariant
                i <= R,
                self.rows.len() == R,
                forall|k: int| 0 <= k < R ==> (#[trigger] self.rows[k]).len() == C,
                rows.len() == i,
                forall|k: int| 0 <= k < i ==> (#[trigger] rows[k]).len() == C,
                forall|k: int, l: int|
                    0 <= k < i && 0 <= l < C ==> (#[trigger] rows[k][l])@ == self.rows[k][l]@,
            decreases R - i,
        {
            let mut row: Vec<Rational> = Vec::new();
            let mut j: usize = 0;
            while j < C
                invariant
                    j <= C,
                    i < R,
                    self.rows.len() == R,
                    self.rows[i as int].len() == C,
                    row.len() == j,
                    forall|l: int| 0 <= l < j ==> (#[trigger] row[l])@ == self.rows[i as int][l]@,
                decreases C - j,
            {
                row.push(self.rows[i][j]);
                j = j + 1;
            }
            rows.push(row);
            i = i + 1;
        }
        let m = Matrix { rows };
        proof {
            assert forall|k: int| 0 <= k < R implies #[trigger] m@[k] =~= self@[k] by {
                assert(m.rows[k].len() == C);
            }
            assert(m@ =~= self@);
        }
        m
    }

    /// The first `K` rows.
    pub fn top_rows<const K: usize>(&self) -> (m: Matrix<K, C>)
        requires
            0 < K <= R,
        ensures
            m@ == self@.take(K as int),
    {
        proof {
            use_type_invariant(self);
        }
        let mut rows: Vec<Vec<Rational>> = Vec::new();
        let mut i: usize = 0;
        while i < K
            invariant
                i <= K <= R,
                self.rows.len() == R,
                forall|k: int| 0 <= k < R ==> (#[trigger] self.rows[k]).len() == C,
                rows.len() == i,
                forall|k: int| 0 <= k < i ==> (#[trigger] rows[k]).len() == C,
                forall|k: int, l: int|
                    0 <= k < i && 0 <= l < C ==> (#[trigger] rows[k][l])@ == self.rows[k][l]@,
            decreases K - i,
        {
            let mut row: Vec<Rational> = Vec::new();
            let mut j: usize = 0;
            while j < C
                invariant
                    j <= C,
                    i < K <= R,
                    self.rows.len() == R,
                    self.rows[i as int].len() == C,
                    row.len() == j,
                    forall|l: int| 0 <= l < j ==> (#[trigger] row[l])@ == self.rows[i as int][l]@,
                decreases C - j,
            {
                row.push(self.rows[i][j]);
                j = j + 1;
            }
            rows.push(row);
            i = i + 1;
        }
        let m = Matrix::<K, C> { rows };
        proof {
            let want = self@.take(K as int);
            assert(want.len() == K);
            assert forall|k: int| 0 <= k < K implies #[trigger] m@[k] =~= want[k] by {
                assert(m.rows[k].len() == C);
                assert(want[k] == self@[k]);
            }
            assert(m@ =~= want);
        }
        m
    }

    /// The transposed matrix.
    pub fn transpose(&self) -> (m: Matrix<C, R>)
        ensures
            m@ == transpose(self@),
    {
        proof {
            use_type_invariant(self);
        }
        let mut rows: Vec<Vec<Rational>> = Vec::new();
        let mut j: usize = 0;
        while j < C
            invariant
                j <= C,
                self.rows.len() == R,
                forall|k: int| 0 <= k < R ==> (#[trigger] self.rows[k]).len() == C,
                rows.len() == j,
                forall|k: int| 0 <= k < j ==> (#[trigger] rows[k]).len() == R,
                forall|k: int, l: int|
                    0 <= k < j && 0 <= l < R ==> (#[trigger] rows[k][l])@ == self.rows[l][k]@,
            decreases C - j,
        {
            let mut row: Vec<Rational> = Vec::new();
            let mut i: usize = 0;
            while i < R
                invariant
                    i <= R,
                    j < C,
                    self.rows.len() == R,
                    forall|k: int| 0 <= k < R ==> (#[trigger] self.rows[k]).len() == C,
                    row.len() == i,
                    forall|l: int| 0 <= l < i ==> (#[trigger] row[l])@ == self.rows[l][j as int]@,
                decreases R - i,
            {
                row.push(self.rows[i][j]);
                i = i + 1;
            }
            rows.push(row);
            j = j + 1;
        }
        let m = Matrix::<C, R> { rows };
        proof {
            let want = transpose(self@);
            assert(self@[0].len() == C);
            assert(want.len() == C);
            assert forall|k: int| 0 <= k < C implies #[trigger] m@[k] =~= want[k] by {
                assert(m.rows[k].len() == R);
            }
            assert(m@ =~= want);
        }
        m
    }

    /// The entrywise sum, or `None` when an entry of it cannot be stored.
    pub fn add(&self, rhs: &Self) -> (r: Option<Self>)
        ensures
            match r {
                Some(m) => m@ == mat_add(self@, rhs@) && all_representable(mat_add(self@, rhs@)),
                None => !all_representable(mat_add(self@, rhs@)),
            },
    {
        proof {
            use_type_invariant(self);
            use_type_invariant(rhs);
        }
        let ghost want = mat_add(self@, rhs@);
        let mut rows: Vec<Vec<Rational>> = Vec::new();
        let mut i: usize = 0;
        while i < R
            invariant
                i <= R,
                want == mat_add(self@, rhs@),
                self.rows.len() == R,
                rhs.rows.len() == R,
                forall|k: int| 0 <= k < R ==> (#[trigger] self.rows[k]).len() == C,
                forall|k: int| 0 <= k < R ==> (#[trigger] rhs.rows[k]).len() == C,
                rows.len() == i,
                forall|k: int| 0 <= k < i ==> (#[trigger] rows[k]).len() == C,
                forall|k: int, l: int|
                    0 <= k < i && 0 <= l < C ==> (#[trigger] rows[k][l])@ == want[k][l],
                forall|k: int, l: int|
                    0 <= k < i && 0 <= l < C ==> representable(#[trigger] want[k][l]),
            decreases R - i,
        {
            let mut row: Vec<Rational> = Vec::new();
            let mut j: usize = 0;
            while j < C
                invariant
                    j <= C,
                    i < R,
                    want == mat_add(self@, rhs@),
                    self.rows.len() == R,
                    rhs.rows.len() == R,
                    self.rows[i as int].len() == C,
                    rhs.rows[i as int].len() == C,
                    row.len() == j,
                    forall|l: int| 0 <= l < j ==> (#[trigger] row[l])@ == want[i as int][l],
                    forall|l: int| 0 <= l < j ==> representable(#[trigger] want[i as int][l]),
                decreases C - j,
            {
                assert(want[i as int][j as int] == self.rows[i as int][j as int]@
                    + rhs.rows[i as int][j as int]@);
                match self.rows[i][j].add(&rhs.rows[i][j]) {
                    Some(x) => {
                        assert(x@ == want[i as int][j as int]);
                        assert(representable(want[i as int][j as int]));
                        let ghost before = row@;
                        row.push(x);
                        assert(row@[j as int] == x);
                        assert(forall|l: int| 0 <= l < j ==> row[l] == before[l]);
                    },
                    None => {
                        assert(!representable(want[i as int][j as int]));
                        return None;
                    },
                }
                j = j + 1;
            }
            rows.push(row);
            i = i + 1;
        }
        let m = Matrix { rows };
        proof {
            assert forall|k: int| 0 <= k < R implies #[trigger] m@[k] =~= want[k] by {
                assert(m.rows[k].len() == C);
            }
            assert(m@ =~= want);
        }
        Some(m)
    }

    /// The entrywise difference, or `None` when an entry of it cannot be stored.
    pub fn sub(&self, rhs: &Self) -> (r: Option<Self>)
        ensures
            match r {
                Some(m) => m@ == mat_sub(self@, rhs@) && all_representable(mat_sub(self@, rhs@)),
                None => !all_representable(mat_sub(self@, rhs@)),
            },
    {
        proof {
            use_type_invariant(self);
            use_type_invariant(rhs);
        }
        let ghost want = mat_sub(self@, rhs@);
        let mut rows: Vec<Vec<Rational>> = Vec::new();
        let mut i: usize = 0;
        while i < R
            invariant
                i <= R,
                want == mat_sub(self@, rhs@),
                self.rows.len() == R,
                rhs.rows.len() == R,
                forall|k: int| 0 <= k < R ==> (#[trigger] self.rows[k]).len() == C,
                forall|k: int| 0 <= k < R ==> (#[trigger] rhs.rows[k]).len() == C,
                rows.len() == i,
                forall|k: int| 0 <= k < i ==> (#[trigger] rows[k]).len() == C,
                forall|k: int, l: int|
                    0 <= k < i && 0 <= l < C ==> (#[trigger] rows[k][l])@ == want[k][l],
                forall|k: int, l: int|
                    0 <= k < i && 0 <= l < C ==> representable(#[trigger] want[k][l]),
            decreases R - i,
        {
            let mut row: Vec<Rational> = Vec::new();
            let mut j: usize = 0;
            while j < C
                invariant
                    j <= C,
                    i < R,
                    want == mat_sub(self@, rhs@),
                    self.rows.len() == R,
                    rhs.rows.len() == R,
                    self.rows[i as int].len() == C,
                    rhs.rows[i as int].len() == C,
                    row.len() == j,
                    forall|l: int| 0 <= l < j ==> (#[trigger] row[l])@ == want[i as int][l],
                    forall|l: int| 0 <= l < j ==> representable(#[trigger] want[i as int][l]),
                decreases C - j,
            {
                assert(want[i as int][j as int] == self.rows[i as int][j as int]@
                    - rhs.rows[i as int][j as int]@);
                match self.rows[i][j].sub(&rhs.rows[i][j]) {
                    Some(x) => {
                        assert(x@ == want[i as int][j as int]);
                        assert(representable(want[i as int][j as int]));
                        let ghost before = row@;
                        row.push(x);
                        assert(row@[j as int] == x);
                        assert(forall|l: int| 0 <= l < j ==> row[l] == before[l]);
                    },
                    None => {
                        assert(!representable(want[i as int][j as int]));
                        return None;
                    },
                }
                j = j + 1;
            }
            rows.push(row);
            i = i + 1;
        }
        let m = Matrix { rows };
        proof {
            assert forall|k: int| 0 <= k < R implies #[trigger] m@[k] =~= want[k] by {
                assert(m.rows[k].len() == C);
            }
            assert(m@ =~= want);
        }
        Some(m)
    }

    /// The inner product of row `i` with column `j` of `rhs`, accumulated from
    /// the left.
    fn row_times_column<const K: usize>(&self, rhs: &Matrix<C, K>, i: usize, j: usize) -> (r:
        Option<Rational>)
        requires
            i < R,
            j < K,
        ensures
            match r {
                Some(x) => q_dot(self@[i as int], column(rhs@, j as int)) == Some(x@),
                None => q_dot(self@[i as int], column(rhs@, j as int)) is None,
            },
    {
        proof {
            use_type_invariant(self);
            use_type_invariant(rhs);
        }
        let ghost a = self@[i as int];
        let ghost b = column(rhs@, j as int);
        let mut acc: Rational = Rational::zero();
        let mut k: usize = 0;
        while k < C
            invariant
                k <= C,
                i < R,
                j < K,
                a == self@[i as int],
                b == column(rhs@, j as int),
                a.len() == C,
                self.rows.len() == R,
                rhs.rows.len() == C,
                self.rows[i as int].len() == C,
                forall|t: int| 0 <= t < C ==> (#[trigger] rhs.rows[t]).len() == K,
                q_dot_upto(a, b, k as nat) == Some(acc@),
            decreases C - k,
        {
            assert(a[k as int] == self.rows[i as int][k as int]@);
            assert(b[k as int] == rhs.rows[k as int][j as int]@);
            let p = match self.rows[i][k].mul(&rhs.rows[k][j]) {
                Some(p) => p,
                None => {
                    proof {
                        lemma_q_dot_stuck(a, b, (k + 1) as nat, C as nat);
                    }
                    return None;
                },
            };
            acc = match acc.add(&p) {
                Some(s) => s,
                None => {
                    proof {
                        lemma_q_dot_stuck(a, b, (k + 1) as nat, C as nat);
                    }
                    return None;
                },
            };
            k = k + 1;
        }
        Some(acc)
    }

    /// The matrix product, or `None` when an entry of it cannot be computed
    /// in stored numbers.
    pub fn mul<const K: usize>(&self, rhs: &Matrix<C, K>) -> (r: Option<Matrix<R, K>>)
        ensures
            match r {
                Some(m) => m@ == mat_mul(self@, rhs@) && mul_defined(self@, rhs@),
                None => !mul_defined(self@, rhs@),
            },
    {
        proof {
            use_type_invariant(self);
            use_type_invariant(rhs);
            assert(rhs@[0].len() == K);
        }
        let ghost want = mat_mul(self@, rhs@);
        let mut rows: Vec<Vec<Rational>> = Vec::new();
        let mut i: usize = 0;
        while i < R
            invariant
                i <= R,
                want == mat_mul(self@, rhs@),
                width(rhs@) == K,
                self@.len() == R,
                K > 0,
                rows.len() == i,
                forall|k: int| 0 <= k < i ==> (#[trigger] rows[k]).len() == K,
                forall|k: int, l: int|
                    0 <= k < i && 0 <= l < K ==> (#[trigger] rows[k][l])@ == want[k][l],
                forall|k: int, l: int|
                    0 <= k < i && 0 <= l < K ==> (#[trigger] q_dot(self@[k], column(rhs@, l))) is Some,
            decreases R - i,
        {
            let mut row: Vec<Rational> = Vec::new();
            let mut j: usize = 0;
            while j < K
                invariant
                    j <= K,
                    i < R,
                    want == mat_mul(self@, rhs@),
                    width(rhs@) == K,
                    self@.len() == R,
                    row.len() == j,
                    forall|l: int| 0 <= l < j ==> (#[trigger] row[l])@ == want[i as int][l],
                    forall|l: int|
                        0 <= l < j ==> (#[trigger] q_dot(self@[i as int], column(rhs@, l))) is Some,
                decreases K - j,
            {
                match self.row_times_column(rhs, i, j) {
                    Some(x) => {
                        proof {
                            lemma_q_dot_exact(
                                self@[i as int],
                                column(rhs@, j as int),
                                self@[i as int].len(),
                            );
                            assert(want[i as int][j as int] == dot(
                                self@[i as int],
                                column(rhs@, j as int),
                            ));
                            assert(x@ == want[i as int][j as int]);
                        }
                        let ghost before = row@;
                        row.push(x);
                        assert(row@[j as int] == x);
                        assert(forall|l: int| 0 <= l < j ==> row[l] == before[l]);
                    },
                    None => {
                        return None;
                    },
                }
                j = j + 1;
            }
            rows.push(row);
            assert(rows@[i as int] == row);
            i = i + 1;
        }
        let m = Matrix::<R, K> { rows };
        proof {
            assert forall|k: int| 0 <= k < R implies #[trigger] m@[k] =~= want[k] by {
                assert(m.rows[k].len() == K);
            }
            assert(m@ =~= want);
        }
        Some(m)
    }
}

impl<const N: usize> Matrix<N, N> {
    /// The identity matrix.
    pub fn identity() -> (m: Self)
        requires
            N > 0,
        ensures
            m@ == identity(N as nat),
    {
        let mut rows: Vec<Vec<Rational>> = Vec::new();
        let mut i: usize = 0;
        while i < N
            invariant
                i <= N,
                rows.len() == i,
                forall|k: int| 0 <= k < i ==> (#[trigger] rows[k]).len() == N,
                forall|k: int, l: int|
                    0 <= k < i && 0 <= l < N ==> (#[trigger] rows[k][l])@ == (if k == l {
                        1real
                    } else {
                        0real
                    }),
            decreases N - i,
        {
            let mut row: Vec<Rational> = Vec::new();
            let mut j: usize = 0;
            while j < N
                invariant
                    j <= N,
                    row.len() == j,
                    forall|l: int|
                        0 <= l < j ==> (#[trigger] row[l])@ == (if i == l {
                            1real
                        } else {
                            0real
                        }),
                decreases N - j,
            {
                let e: Rational = if i == j { Rational::one() } else { Rational::zero() };
                row.push(e);
                j = j + 1;
            }
            rows.push(row);
            i = i + 1;
        }
        let m = Matrix::<N, N> { rows };
        proof {
            let want = identity(N as nat);
            assert forall|k: int| 0 <= k < N implies #[trigger] m@[k] =~= want[k] by {
                assert(m.rows[k].len() == N);
            }
            assert(m@ =~= want);
        }
        m
    }
}

/// Once a prefix of an inner product cannot be stored, no longer prefix can.
proof fn lemma_q_dot_stuck(a: Seq<real>, b: Seq<real>, n: nat, m: nat)
    requires
        n <= m,
        q_dot_upto(a, b, n) is None,
    ensures
        q_dot_upto(a, b, m) is None,
    decreases m,
{
    if n < m {
        lemma_q_dot_stuck(a, b, n, (m - 1) as nat);
    }
}

} // verus!
