//! Inversion of square matrices by elimination.
//!
//! The elimination is Gauss-Jordan with the first row that has a pivot. The
//! specification functions here say step by step what it computes in stored
//! numbers. That what it arrives at is the inverse, or a vector which shows
//! that there is none, is proved in [`crate::elimination`].
use vstd::prelude::*;
use crate::elimination::{kept, lemma_eliminated};
use crate::matrix::{entries, Matrix, reals};
use crate::rational::{q_div, q_mul, q_sub, Rational};
use crate::real_matrix::{
    column, identity, lemma_identity_symmetric, lemma_mul_assoc, lemma_mul_identity_left,
    lemma_sum_zero, mat_mul, shaped,
};

verus! {

/// Why a matrix was not inverted.
#[derive(Clone, Copy, Debug, PartialEq, Eq, Structural)]
pub enum InverseError {
    /// The matrix sends a vector that is not zero to zero: it has no inverse.
    Singular,
    /// A number on the way of the elimination cannot be stored.
    Unresolved,
}

/// Every entry of `m` is zero.
pub open spec fn is_zero(m: Seq<Seq<real>>) -> bool {
    forall|i: int, j: int| 0 <= i < m.len() && 0 <= j < m[i].len() ==> m[i][j] == 0real
}

/// `v` is a column that is not zero and that `m` sends to zero.
pub open spec fn kernel_vector(m: Seq<Seq<real>>, v: Seq<Seq<real>>) -> bool {
    &&& shaped(v, m.len(), 1)
    &&& !is_zero(v)
    &&& is_zero(mat_mul(m, v))
}

/// `m` sends some vector that is not zero to zero.
pub open spec fn singular(m: Seq<Seq<real>>) -> bool {
    exists|v: Seq<Seq<real>>| #[trigger] kernel_vector(m, v)
}

/// `x` is the inverse of the square matrix `m` of size `n`, from both sides.
pub open spec fn inverse_pair(x: Seq<Seq<real>>, m: Seq<Seq<real>>, n: nat) -> bool {
    &&& shaped(x, n, n)
    &&& shaped(m, n, n)
    &&& mat_mul(x, m) == identity(n)
    &&& mat_mul(m, x) == identity(n)
}

/// A matrix times a zero matrix is zero.
pub proof fn lemma_mul_zero(x: Seq<Seq<real>>, z: Seq<Seq<real>>, r: nat, k: nat, c: nat)
    requires
        shaped(x, r, k),
        shaped(z, k, c),
        is_zero(z),
        k > 0,
    ensures
        is_zero(mat_mul(x, z)),
{
    let p = mat_mul(x, z);
    assert forall|i: int, j: int| 0 <= i < p.len() && 0 <= j < p[i].len() implies p[i][j]
        == 0real by {
        let f = |t: int| x[i][t] * column(z, j)[t];
        assert forall|t: int| 0 <= t < k implies #[trigger] f(t) == 0real by {
            assert(column(z, j)[t] == z[t][j]);
            assert(x[i][t] * 0real == 0real) by (nonlinear_arith);
        }
        lemma_sum_zero(k, f);
    }
}

/// A singular matrix has no inverse from the left.
pub proof fn lemma_singular_has_no_inverse(m: Seq<Seq<real>>, x: Seq<Seq<real>>, n: nat)
    requires
        shaped(m, n, n),
        shaped(x, n, n),
        n > 0,
        singular(m),
    ensures
        mat_mul(x, m) != identity(n),
{
    let v = choose|v: Seq<Seq<real>>| #[trigger] kernel_vector(m, v);
    if mat_mul(x, m) == identity(n) {
        let mv = mat_mul(m, v);
        lemma_mul_assoc(x, m, v, n, n, n, 1);
        lemma_mul_identity_left(v, n, 1);
        lemma_mul_zero(x, mv, n, n, 1);
        assert(mat_mul(x, mv) == v);
        assert(is_zero(v));
    }
}

/// `row` with every entry divided by `pivot`, in stored numbers.
pub open spec fn q_scaled(row: Seq<real>, pivot: real) -> Option<Seq<real>> {
    if forall|j: int| 0 <= j < row.len() ==> (#[trigger] q_div(row[j], pivot)) is Some {
        Some(Seq::new(row.len(), |j: int| row[j] / pivot))
    } else {
        None
    }
}

/// Entry `j` of `target - factor * source`, in stored numbers: the product,
/// then the difference.
pub open spec fn q_reduced_entry(target: Seq<real>, source: Seq<real>, factor: real, j: int) -> Option<
    real,
> {
    match q_mul(factor, source[j]) {
        Some(p) => q_sub(target[j], p),
        None => None,
    }
}

/// The row `target - factor * source`, in stored numbers.
pub open spec fn q_reduced(target: Seq<real>, source: Seq<real>, factor: real) -> Option<
    Seq<real>,
> {
    if forall|j: int|
        0 <= j < target.len() ==> (#[trigger] q_reduced_entry(target, source, factor, j)) is Some {
        Some(Seq::new(target.len(), |j: int| target[j] - factor * source[j]))
    } else {
        None
    }
}

/// The first row at or below `r` whose entry in column `c` is not zero.
pub open spec fn first_pivot(a: Seq<Seq<real>>, c: int, r: int, n: int) -> Option<int>
    decreases n - r,
{
    if r >= n {
        None
    } else if a[r][c] != 0real {
        Some(r)
    } else {
        first_pivot(a, c, r + 1, n)
    }
}

/// `a` with rows `i` and `j` exchanged.
pub open spec fn swapped(a: Seq<Seq<real>>, i: int, j: int) -> Seq<Seq<real>> {
    a.update(i, a[j]).update(j, a[i])
}

/// Column `c` cleared in the rows from `r` on, but for row `c` itself: from
/// each such row of `a` with an entry in that column, that multiple of row
/// `c` is taken off, and the same is done to `b`. `None` when a number on the
/// way cannot be stored.
pub open spec fn q_cleared(
    a: Seq<Seq<real>>,
    b: Seq<Seq<real>>,
    c: int,
    r: int,
    n: int,
) -> Option<(Seq<Seq<real>>, Seq<Seq<real>>)>
    decreases n - r,
{
    if r >= n {
        Some((a, b))
    } else if r == c || a[r][c] == 0real {
        q_cleared(a, b, c, r + 1, n)
    } else {
        match (q_reduced(a[r], a[c], a[r][c]), q_reduced(b[r], b[c], a[r][c])) {
            (Some(ar), Some(br)) => q_cleared(a.update(r, ar), b.update(r, br), c, r + 1, n),
            _ => None,
        }
    }
}

/// What an elimination arrives at.
pub enum Elimination {
    /// Every column had a pivot; this is the right-hand block.
    Candidate(Seq<Seq<real>>),
    /// This column had no pivot; the left-hand block as it stood.
    NoPivot(int, Seq<Seq<real>>),
    /// A number on the way could not be stored.
    Stuck,
}

/// Gauss-Jordan elimination of the columns from `c` on, for matrices of size
/// `n`: the first row with a pivot is brought up, divided by the pivot, and
/// taken off every other row; `b` goes through the same row operations as
/// `a`.
pub open spec fn q_eliminated(a: Seq<Seq<real>>, b: Seq<Seq<real>>, c: int, n: int) -> Elimination
    decreases n - c,
{
    if c >= n {
        Elimination::Candidate(b)
    } else {
        match first_pivot(a, c, c, n) {
            None => Elimination::NoPivot(c, a),
            Some(p) => {
                let a1 = swapped(a, c, p);
                let b1 = swapped(b, c, p);
                match (q_scaled(a1[c], a1[c][c]), q_scaled(b1[c], a1[c][c])) {
                    (Some(ac), Some(bc)) => match q_cleared(
                        a1.update(c, ac),
                        b1.update(c, bc),
                        c,
                        0,
                        n,
                    ) {
                        Some((a2, b2)) => q_eliminated(a2, b2, c + 1, n),
                        None => Elimination::Stuck,
                    },
                    _ => Elimination::Stuck,
                }
            },
        }
    }
}

/// The column that an elimination points to when column `c` has no pivot:
/// one in place `c`, the negated entries of that column above it, zero below.
pub open spec fn kernel_column(left: Seq<Seq<real>>, c: int) -> Seq<Seq<real>> {
    Seq::new(
        left.len(),
        |i: int|
            seq![
                if i < c {
                    -left[i][c]
                } else if i == c {
                    1real
                } else {
                    0real
                },
            ],
    )
}

/// What `try_inverse` returns: the right-hand block of an elimination that
/// starts from `m` and the identity, when every column finds its pivot.
#[verifier::opaque]
pub open spec fn q_inverse(m: Seq<Seq<real>>) -> Result<Seq<Seq<real>>, InverseError> {
    match q_eliminated(m, identity(m.len()), 0, m.len() as int) {
        Elimination::Candidate(x) => Ok(x),
        Elimination::NoPivot(_, _) => Err(InverseError::Singular),
        Elimination::Stuck => Err(InverseError::Unresolved),
    }
}

/// The elimination starts from a state that has what it keeps.
proof fn lemma_start(m: Seq<Seq<real>>, n: nat)
    requires
        shaped(m, n, n),
        n > 0,
    ensures
        kept(m, identity(n), identity(n), m, 0, n),
{
    lemma_identity_symmetric(n);
    lemma_mul_identity_left(m, n, n);
    lemma_mul_identity_left(identity(n), n, n);
}

/// An inverse that `try_inverse` returns is one, from both sides, and a
/// matrix that it calls singular is: it sends a vector that is not zero to
/// zero, and so has no inverse.
pub proof fn lemma_q_inverse_is_inverse(m: Seq<Seq<real>>, n: nat)
    requires
        shaped(m, n, n),
        n > 0,
    ensures
        q_inverse(m) matches Ok(x) ==> inverse_pair(x, m, n),
        q_inverse(m) == Err::<Seq<Seq<real>>, InverseError>(InverseError::Singular) ==> singular(m),
{
    reveal(q_inverse);
    lemma_start(m, n);
    lemma_eliminated(m, identity(n), identity(n), m, 0, n);
    match q_eliminated(m, identity(n), 0, n as int) {
        Elimination::NoPivot(at, left) => {
            assert(kernel_vector(m, kernel_column(left, at)));
        },
        _ => {},
    }
}

/// `rows` holds `n` rows of `n` entries.
pub open spec fn square(rows: Seq<Vec<Rational>>, n: nat) -> bool {
    &&& rows.len() == n
    &&& forall|i: int| 0 <= i < n ==> (#[trigger] rows[i]).len() == n
}

/// Replacing a row replaces its view.
proof fn lemma_entries_update(rows: Seq<Vec<Rational>>, r: int, row: Vec<Rational>)
    requires
        0 <= r < rows.len(),
    ensures
        entries(rows.update(r, row)) == entries(rows).update(r, reals(row@)),
{
    assert(entries(rows.update(r, row)) =~= entries(rows).update(r, reals(row@)));
}

/// The rows of `m`, copied out.
fn rows_of<const N: usize>(m: &Matrix<N, N>) -> (rows: Vec<Vec<Rational>>)
    ensures
        square(rows@, N as nat),
        entries(rows@) == m@,
        N > 0,
{
    m.shape();
    let mut rows: Vec<Vec<Rational>> = Vec::new();
    let mut i: usize = 0;
    while i < N
        invariant
            i <= N,
            shaped(m@, N as nat, N as nat),
            rows.len() == i,
            forall|k: int| 0 <= k < i ==> (#[trigger] rows[k]).len() == N,
            forall|k: int, l: int| 0 <= k < i && 0 <= l < N ==> (#[trigger] rows[k][l])@ == m@[k][l],
        decreases N - i,
    {
        let mut row: Vec<Rational> = Vec::new();
        let mut j: usize = 0;
        while j < N
            invariant
                j <= N,
                i < N,
                row.len() == j,
                forall|l: int| 0 <= l < j ==> (#[trigger] row[l])@ == m@[i as int][l],
            decreases N - j,
        {
            row.push(m.get(i, j));
            j = j + 1;
        }
        rows.push(row);
        i = i + 1;
    }
    proof {
        let e = entries(rows@);
        assert forall|k: int| 0 <= k < N implies #[trigger] e[k] =~= m@[k] by {
            assert(rows[k].len() == N);
        }
        assert(e =~= m@);
    }
    rows
}

/// The rows of the identity matrix of size `n`.
fn identity_rows(n: usize) -> (rows: Vec<Vec<Rational>>)
    ensures
        square(rows@, n as nat),
        entries(rows@) == identity(n as nat),
{
    let mut rows: Vec<Vec<Rational>> = Vec::new();
    let mut i: usize = 0;
    while i < n
        invariant
            i <= n,
            rows.len() == i,
            forall|k: int| 0 <= k < i ==> (#[trigger] rows[k]).len() == n,
            forall|k: int, l: int|
                0 <= k < i && 0 <= l < n ==> (#[trigger] rows[k][l])@ == (if k == l {
                    1real
                } else {
                    0real
                }),
        decreases n - i,
    {
        let mut row: Vec<Rational> = Vec::new();
        let mut j: usize = 0;
        while j < n
            invariant
                j <= n,
                row.len() == j,
                forall|l: int|
                    0 <= l < j ==> (#[trigger] row[l])@ == (if i == l {
                        1real
                    } else {
                        0real
                    }),
            decreases n - j,
        {
            let e: Rational = if i == j { Rational::one() } else { Rational::zero() };
            row.push(e);
            j = j + 1;
        }
        rows.push(row);
        i = i + 1;
    }
    proof {
        let e = entries(rows@);
        let want = identity(n as nat);
        assert forall|k: int| 0 <= k < n implies #[trigger] e[k] =~= want[k] by {
            assert(rows[k].len() == n);
        }
        assert(e =~= want);
    }
    rows
}

/// A copy of `row`.
fn copy_row(row: &Vec<Rational>) -> (out: Vec<Rational>)
    ensures
        out@ == row@,
{
    let mut out: Vec<Rational> = Vec::new();
    let mut j: usize = 0;
    while j < row.len()
        invariant
            j <= row.len(),
            out.len() == j,
            forall|l: int| 0 <= l < j ==> out[l] == row[l],
        decreases row.len() - j,
    {
        out.push(row[j]);
        j = j + 1;
    }
    assert(out@ =~= row@);
    out
}

/// `row` with every entry divided by `pivot`.
fn scaled_row(row: &Vec<Rational>, pivot: &Rational) -> (out: Option<Vec<Rational>>)
    ensures
        match out {
            Some(v) => q_scaled(reals(row@), pivot@) == Some(reals(v@)) && v.len() == row.len(),
            None => q_scaled(reals(row@), pivot@) is None,
        },
{
    let ghost src = reals(row@);
    let mut out: Vec<Rational> = Vec::new();
    let mut j: usize = 0;
    while j < row.len()
        invariant
            j <= row.len(),
            src == reals(row@),
            out.len() == j,
            forall|l: int| 0 <= l < j ==> (#[trigger] out[l])@ == src[l] / pivot@,
            forall|l: int| 0 <= l < j ==> (#[trigger] q_div(src[l], pivot@)) is Some,
        decreases row.len() - j,
    {
        assert(src[j as int] == row[j as int]@);
        match row[j].div(pivot) {
            Some(x) => {
                let ghost before = out@;
                out.push(x);
                assert(out@[j as int] == x);
                assert(forall|l: int| 0 <= l < j ==> out[l] == before[l]);
            },
            None => {
                return None;
            },
        }
        j = j + 1;
    }
    proof {
        let want = Seq::new(src.len(), |l: int| src[l] / pivot@);
        assert(reals(out@) =~= want);
    }
    Some(out)
}

/// `target - factor * source`, entry by entry.
fn reduced_row(target: &Vec<Rational>, source: &Vec<Rational>, factor: &Rational) -> (out: Option<
    Vec<Rational>,
>)
    requires
        target.len() == source.len(),
    ensures
        match out {
            Some(v) => q_reduced(reals(target@), reals(source@), factor@) == Some(reals(v@))
                && v.len() == target.len(),
            None => q_reduced(reals(target@), reals(source@), factor@) is None,
        },
{
    let ghost t = reals(target@);
    let ghost s = reals(source@);
    let mut out: Vec<Rational> = Vec::new();
    let mut j: usize = 0;
    while j < target.len()
        invariant
            j <= target.len(),
            target.len() == source.len(),
            t == reals(target@),
            s == reals(source@),
            out.len() == j,
            forall|l: int| 0 <= l < j ==> (#[trigger] out[l])@ == t[l] - factor@ * s[l],
            forall|l: int| 0 <= l < j ==> (#[trigger] q_reduced_entry(t, s, factor@, l)) is Some,
        decreases target.len() - j,
    {
        assert(t[j as int] == target[j as int]@);
        assert(s[j as int] == source[j as int]@);
        let p = match factor.mul(&source[j]) {
            Some(p) => p,
            None => {
                assert(q_reduced_entry(t, s, factor@, j as int) is None);
                return None;
            },
        };
        match target[j].sub(&p) {
            Some(x) => {
                let ghost before = out@;
                out.push(x);
                assert(out@[j as int] == x);
                assert(forall|l: int| 0 <= l < j ==> out[l] == before[l]);
            },
            None => {
                assert(q_reduced_entry(t, s, factor@, j as int) is None);
                return None;
            },
        }
        j = j + 1;
    }
    proof {
        let want = Seq::new(t.len(), |l: int| t[l] - factor@ * s[l]);
        assert(reals(out@) =~= want);
    }
    Some(out)
}

/// The first row at or below `c` whose entry in column `c` is not zero.
fn find_pivot(a: &Vec<Vec<Rational>>, c: usize, n: usize) -> (p: Option<usize>)
    requires
        square(a@, n as nat),
        c < n,
    ensures
        match p {
            Some(r) => c <= r < n && first_pivot(entries(a@), c as int, c as int, n as int)
                == Some(r as int),
            None => first_pivot(entries(a@), c as int, c as int, n as int) is None,
        },
{
    let mut r: usize = c;
    while r < n
        invariant
            c <= r <= n,
            square(a@, n as nat),
            c < n,
            first_pivot(entries(a@), c as int, c as int, n as int) == first_pivot(
                entries(a@),
                c as int,
                r as int,
                n as int,
            ),
        decreases n - r,
    {
        assert(entries(a@)[r as int][c as int] == a[r as int][c as int]@);
        if !a[r][c].is_zero() {
            return Some(r);
        }
        r = r + 1;
    }
    None
}

/// What the elimination arrived at.
enum Outcome {
    /// The right-hand block, which is the inverse.
    Candidate(Vec<Vec<Rational>>),
    /// No pivot in this column; the left-hand block as it stood.
    NoPivot(usize, Vec<Vec<Rational>>),
    /// A number could not be stored.
    Stuck,
}

/// Clears column `c` in every row but row `c`.
fn clear_column(a: &mut Vec<Vec<Rational>>, b: &mut Vec<Vec<Rational>>, c: usize, n: usize) -> (ok:
    bool)
    requires
        square(old(a)@, n as nat),
        square(old(b)@, n as nat),
        c < n,
    ensures
        square(final(a)@, n as nat),
        square(final(b)@, n as nat),
        match q_cleared(entries(old(a)@), entries(old(b)@), c as int, 0, n as int) {
            Some((a2, b2)) => ok && entries(final(a)@) == a2 && entries(final(b)@) == b2,
            None => !ok,
        },
{
    let ghost a0 = entries(a@);
    let ghost b0 = entries(b@);
    let mut r: usize = 0;
    while r < n
        invariant
            r <= n,
            c < n,
            square(a@, n as nat),
            square(b@, n as nat),
            a0 == entries(old(a)@),
            b0 == entries(old(b)@),
            q_cleared(a0, b0, c as int, 0, n as int) == q_cleared(
                entries(a@),
                entries(b@),
                c as int,
                r as int,
                n as int,
            ),
        decreases n - r,
    {
        assert(entries(a@)[r as int][c as int] == a[r as int][c as int]@);
        if r != c {
            let factor: Rational = a[r][c];
            if !factor.is_zero() {
                assert(entries(a@)[r as int] == reals(a[r as int]@));
                assert(entries(a@)[c as int] == reals(a[c as int]@));
                assert(entries(b@)[r as int] == reals(b[r as int]@));
                assert(entries(b@)[c as int] == reals(b[c as int]@));
                let ghost ea = entries(a@);
                let ghost eb = entries(b@);
                assert(factor@ == ea[r as int][c as int]);
                let ar = match reduced_row(&a[r], &a[c], &factor) {
                    Some(v) => v,
                    None => {
                        assert(q_reduced(ea[r as int], ea[c as int], ea[r as int][c as int]) is None);
                        assert(q_cleared(ea, eb, c as int, r as int, n as int) is None);
                        return false;
                    },
                };
                let br = match reduced_row(&b[r], &b[c], &factor) {
                    Some(v) => v,
                    None => {
                        assert(q_reduced(eb[r as int], eb[c as int], ea[r as int][c as int]) is None);
                        assert(q_cleared(ea, eb, c as int, r as int, n as int) is None);
                        return false;
                    },
                };
                assert(q_cleared(ea, eb, c as int, r as int, n as int) == q_cleared(
                    ea.update(r as int, reals(ar@)),
                    eb.update(r as int, reals(br@)),
                    c as int,
                    r as int + 1,
                    n as int,
                ));
                proof {
                    lemma_entries_update(a@, r as int, ar);
                    lemma_entries_update(b@, r as int, br);
                }
                a.set(r, ar);
                b.set(r, br);
            }
        }
        r = r + 1;
    }
    true
}

/// Gauss-Jordan elimination on `a`, with the same row operations applied to
/// the identity.
fn eliminate(a: Vec<Vec<Rational>>, n: usize) -> (r: Outcome)
    requires
        square(a@, n as nat),
        n > 0,
    ensures
        match r {
            Outcome::Candidate(b) => square(b@, n as nat) && q_eliminated(
                entries(a@),
                identity(n as nat),
                0,
                n as int,
            ) == Elimination::Candidate(entries(b@)),
            Outcome::NoPivot(c, left) => c < n && square(left@, n as nat) && q_eliminated(
                entries(a@),
                identity(n as nat),
                0,
                n as int,
            ) == Elimination::NoPivot(c as int, entries(left@)),
            Outcome::Stuck => q_eliminated(entries(a@), identity(n as nat), 0, n as int)
                == Elimination::Stuck,
        },
{
    let ghost a0 = entries(a@);
    let ghost b0 = identity(n as nat);
    let mut left = a;
    let mut right: Vec<Vec<Rational>> = identity_rows(n);
    let mut c: usize = 0;
    while c < n
        invariant
            c <= n,
            n > 0,
            square(left@, n as nat),
            square(right@, n as nat),
            a0 == entries(a@),
            b0 == identity(n as nat),
            q_eliminated(a0, b0, 0, n as int) == q_eliminated(
                entries(left@),
                entries(right@),
                c as int,
                n as int,
            ),
        decreases n - c,
    {
        let ghost ea = entries(left@);
        let ghost eb = entries(right@);
        let p = match find_pivot(&left, c, n) {
            Some(p) => p,
            None => {
                assert(q_eliminated(ea, eb, c as int, n as int) == Elimination::NoPivot(
                    c as int,
                    ea,
                ));
                return Outcome::NoPivot(c, left);
            },
        };
        if p != c {
            let ap = copy_row(&left[p]);
            let ac = copy_row(&left[c]);
            let bp = copy_row(&right[p]);
            let bc = copy_row(&right[c]);
            proof {
                lemma_entries_update(left@, c as int, ap);
                lemma_entries_update(left@.update(c as int, ap), p as int, ac);
                lemma_entries_update(right@, c as int, bp);
                lemma_entries_update(right@.update(c as int, bp), p as int, bc);
            }
            left.set(c, ap);
            left.set(p, ac);
            right.set(c, bp);
            right.set(p, bc);
        }
        proof {
            assert(entries(left@) =~= swapped(ea, c as int, p as int));
            assert(entries(right@) =~= swapped(eb, c as int, p as int));
        }
        let ghost a1 = entries(left@);
        let ghost b1 = entries(right@);
        let pivot: Rational = left[c][c];
        assert(a1[c as int] == reals(left[c as int]@));
        assert(b1[c as int] == reals(right[c as int]@));
        assert(pivot@ == a1[c as int][c as int]);
        let ac = match scaled_row(&left[c], &pivot) {
            Some(v) => v,
            None => {
                assert(q_scaled(a1[c as int], a1[c as int][c as int]) is None);
                assert(q_eliminated(ea, eb, c as int, n as int) == Elimination::Stuck);
                return Outcome::Stuck;
            },
        };
        let bc = match scaled_row(&right[c], &pivot) {
            Some(v) => v,
            None => {
                assert(q_scaled(b1[c as int], a1[c as int][c as int]) is None);
                assert(q_eliminated(ea, eb, c as int, n as int) == Elimination::Stuck);
                return Outcome::Stuck;
            },
        };
        proof {
            lemma_entries_update(left@, c as int, ac);
            lemma_entries_update(right@, c as int, bc);
        }
        left.set(c, ac);
        right.set(c, bc);
        let ghost a2 = entries(left@);
        let ghost b2 = entries(right@);
        assert(a2 == a1.update(c as int, reals(ac@)));
        assert(b2 == b1.update(c as int, reals(bc@)));
        if !clear_column(&mut left, &mut right, c, n) {
            assert(q_cleared(a2, b2, c as int, 0, n as int) is None);
            assert(q_eliminated(ea, eb, c as int, n as int) == Elimination::Stuck);
            return Outcome::Stuck;
        }
        assert(q_eliminated(ea, eb, c as int, n as int) == q_eliminated(
            entries(left@),
            entries(right@),
            c as int + 1,
            n as int,
        ));
        c = c + 1;
    }
    Outcome::Candidate(right)
}

/// The inverse of `m`, by elimination.
///
/// A matrix that is returned is the inverse of `m` from both sides.
/// `Singular` is returned when a column is left without a pivot; `m` then
/// sends a vector that is not zero to zero and has no inverse. `Unresolved`
/// is returned when a number on the way cannot be stored.
pub fn try_inverse<const N: usize>(m: &Matrix<N, N>) -> (r: Result<Matrix<N, N>, InverseError>)
    ensures
        match r {
            Ok(x) => q_inverse(m@) == Ok::<Seq<Seq<real>>, InverseError>(x@),
            Err(e) => q_inverse(m@) == Err::<Seq<Seq<real>>, InverseError>(e),
        },
        r matches Ok(x) ==> inverse_pair(x@, m@, N as nat),
        r matches Err(InverseError::Singular) ==> singular(m@),
{
    reveal(q_inverse);
    m.shape();
    proof {
        lemma_q_inverse_is_inverse(m@, N as nat);
    }
    let a = rows_of(m);
    match eliminate(a, N) {
        Outcome::Candidate(b) => {
            match Matrix::<N, N>::from_rows(b) {
                Some(x) => Ok(x),
                None => {
                    proof {
                        assert(false);
                    }
                    Err(InverseError::Unresolved)
                },
            }
        },
        Outcome::NoPivot(_, _) => Err(InverseError::Singular),
        Outcome::Stuck => Err(InverseError::Unresolved),
    }
}

} // verus!
