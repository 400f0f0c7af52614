use vstd::prelude::*;

use crate::errors::CalcError;
use crate::matrix::{mat_eq_val, mat_v_wf, MatV, Matrix};
use crate::rat::{
    lemma_norm_eq, lemma_q_div_recip, lemma_q_div_wf, lemma_q_eq_add_congr, lemma_q_eq_mul_congr,
    lemma_q_eq_trans, lemma_q_ops_wf, q_abs_gt, q_add, q_add_chk, q_div, q_div_chk, q_eq, q_fits,
    q_is_zero, q_mul, q_mul_chk, q_neg_one, q_norm, q_one, q_sub, q_sub_chk, q_wf, q_zero, Q, Rat,
};

verus! {

/// Relates a kernel result to its mathematical mirror: on success the
/// returned matrix is well-formed and carries exactly the mirrored value;
/// on failure the error kind matches.
pub open spec fn mat_res_is(r: Result<Matrix, CalcError>, o: Result<MatV, CalcError>) -> bool {
    match o {
        Ok(v) => r matches Ok(c) && c.wf() && c@ == v,
        Err(e) => r matches Err(e2) && e2 == e,
    }
}

pub open spec fn add_cells(a: Seq<Seq<Q>>, b: Seq<Seq<Q>>, cols: int) -> Seq<Seq<Q>> {
    Seq::new(a.len(), |i: int| Seq::new(cols as nat, |j: int| q_norm(q_add(a[i][j], b[i][j]))))
}

pub open spec fn all_add_fits(a: MatV, b: MatV) -> bool {
    forall|i: int, j: int|
        0 <= i < a.rows && 0 <= j < a.cols ==> q_fits(
            q_norm(q_add(#[trigger] a.cells[i][j], b.cells[i][j])),
        )
}

/// Elementwise sum: fails unless both operands share the same shape, and
/// overflows only when some exact cell sum does not fit.
pub open spec fn sum_v(a: MatV, b: MatV) -> Result<MatV, CalcError> {
    if a.rows != b.rows || a.cols != b.cols {
        Err(CalcError::DimensionMismatch)
    } else if all_add_fits(a, b) {
        Ok(MatV { rows: a.rows, cols: a.cols, cells: add_cells(a.cells, b.cells, a.cols) })
    } else {
        Err(CalcError::Overflow)
    }
}

pub open spec fn scale_cells(a: Seq<Seq<Q>>, s: Q, cols: int) -> Seq<Seq<Q>> {
    Seq::new(a.len(), |i: int| Seq::new(cols as nat, |j: int| q_norm(q_mul(a[i][j], s))))
}

pub open spec fn all_scale_fits(a: MatV, s: Q) -> bool {
    forall|i: int, j: int|
        0 <= i < a.rows && 0 <= j < a.cols ==> q_fits(q_norm(q_mul(#[trigger] a.cells[i][j], s)))
}

/// Elementwise scaling by a scalar.
pub open spec fn mul_scalar_v(a: MatV, s: Q) -> Result<MatV, CalcError> {
    if all_scale_fits(a, s) {
        Ok(MatV { rows: a.rows, cols: a.cols, cells: scale_cells(a.cells, s, a.cols) })
    } else {
        Err(CalcError::Overflow)
    }
}

/// Elementwise difference, defined as the sum with the right operand scaled
/// by minus one.
pub open spec fn sub_v(a: MatV, b: MatV) -> Result<MatV, CalcError> {
    if a.rows != b.rows || a.cols != b.cols {
        Err(CalcError::DimensionMismatch)
    } else {
        match mul_scalar_v(b, q_neg_one()) {
            Err(e) => Err(e),
            Ok(nb) => sum_v(a, nb),
        }
    }
}

pub open spec fn transpose_cells(a: Seq<Seq<Q>>, rows: int, cols: int) -> Seq<Seq<Q>> {
    Seq::new(cols as nat, |j: int| Seq::new(rows as nat, |i: int| a[i][j]))
}

/// The transposed value: cell `(i, j)` moves to `(j, i)`.
pub open spec fn transpose_v(a: MatV) -> MatV {
    MatV { rows: a.cols, cols: a.rows, cells: transpose_cells(a.cells, a.rows, a.cols) }
}

/// The transpose as this core offers it: square matrices only; any other
/// shape fails with a dimension error.
pub open spec fn transpose_res_v(a: MatV) -> Result<MatV, CalcError> {
    if a.rows != a.cols {
        Err(CalcError::DimensionMismatch)
    } else {
        Ok(transpose_v(a))
    }
}

pub open spec fn id_cells(n: int) -> Seq<Seq<Q>> {
    Seq::new(
        n as nat,
        |i: int|
            Seq::new(
                n as nat,
                |j: int|
                    if i == j {
                        q_one()
                    } else {
                        q_zero()
                    },
            ),
    )
}

/// The identity matrix value of size `n`.
pub open spec fn id_v(n: int) -> MatV {
    MatV { rows: n, cols: n, cells: id_cells(n) }
}

/// The checked dot product of row `a` with column `j` of `b`, accumulated
/// left to right over the first `k` positions; `None` as soon as an
/// intermediate value does not fit.
pub open spec fn dot_chk(a: Seq<Q>, b: Seq<Seq<Q>>, j: int, k: nat) -> Option<Q>
    decreases k,
{
    if k == 0 {
        Some(q_zero())
    } else {
        match dot_chk(a, b, j, (k - 1) as nat) {
            None => None,
            Some(acc) => match q_mul_chk(a[k - 1], b[k - 1][j]) {
                None => None,
                Some(p) => q_add_chk(acc, p),
            },
        }
    }
}

pub open spec fn all_dot_fits(a: MatV, b: MatV) -> bool {
    forall|i: int, j: int|
        0 <= i < a.rows && 0 <= j < b.cols ==> (#[trigger] dot_chk(
            a.cells[i],
            b.cells,
            j,
            a.cols as nat,
        )) is Some
}

pub open spec fn mul_cells(a: MatV, b: MatV) -> Seq<Seq<Q>> {
    Seq::new(
        a.rows as nat,
        |i: int|
            Seq::new(b.cols as nat, |j: int| dot_chk(a.cells[i], b.cells, j, a.cols as nat)->0),
    )
}

/// The matrix product: fails unless the left column count equals the right
/// row count; overflows when some dot-product intermediate does not fit.
pub open spec fn mul_v(a: MatV, b: MatV) -> Result<MatV, CalcError> {
    if a.cols != b.rows {
        Err(CalcError::DimensionMismatch)
    } else if all_dot_fits(a, b) {
        Ok(MatV { rows: a.rows, cols: b.cols, cells: mul_cells(a, b) })
    } else {
        Err(CalcError::Overflow)
    }
}

/// `k - 1` repeated multiplications by the original matrix, for `k >= 1`.
pub open spec fn pow_iter_v(a: MatV, k: nat) -> Result<MatV, CalcError>
    decreases k,
{
    if k <= 1 {
        Ok(a)
    } else {
        match pow_iter_v(a, (k - 1) as nat) {
            Err(e) => Err(e),
            Ok(r) => mul_v(r, a),
        }
    }
}

/// Integer matrix power: fails on a non-square matrix; the zeroth power is
/// the identity of matching size; negative exponents are unsupported.
pub open spec fn pow_v(a: MatV, exp: int) -> Result<MatV, CalcError> {
    if a.rows != a.cols {
        Err(CalcError::DimensionMismatch)
    } else if exp < 0 {
        Err(CalcError::UnsupportedOperation)
    } else if exp == 0 {
        Ok(id_v(a.cols))
    } else {
        pow_iter_v(a, exp as nat)
    }
}

/// Once a dot product fails to fit at some length, it fails at every
/// greater length.
pub proof fn lemma_dot_none_mono(a: Seq<Q>, b: Seq<Seq<Q>>, j: int, k1: nat, k2: nat)
    requires
        k1 <= k2,
        dot_chk(a, b, j, k1) is None,
    ensures
        dot_chk(a, b, j, k2) is None,
    decreases k2,
{
    if k2 > k1 {
        lemma_dot_none_mono(a, b, j, k1, (k2 - 1) as nat);
    }
}

/// Once the iterated product fails, it fails with the same error for every
/// higher power.
pub proof fn lemma_pow_iter_err_mono(a: MatV, k1: nat, k2: nat)
    requires
        1 <= k1 <= k2,
        pow_iter_v(a, k1) is Err,
    ensures
        pow_iter_v(a, k2) is Err,
        pow_iter_v(a, k2)->Err_0 == pow_iter_v(a, k1)->Err_0,
    decreases k2,
{
    if k2 > k1 {
        lemma_pow_iter_err_mono(a, k1, (k2 - 1) as nat);
    }
}

/// For every square matrix value, the zeroth power is the identity of the
/// matrix's size and the first power is the matrix itself.
pub proof fn lemma_pow_unit(a: MatV)
    requires
        a.rows == a.cols,
        a.rows >= 0,
    ensures
        pow_v(a, 0) == Ok::<MatV, CalcError>(id_v(a.cols)),
        pow_v(a, 1) == Ok::<MatV, CalcError>(a),
{
}

/// Non-conformable shapes are rejected with a dimension error and nothing
/// else: an elementwise sum of operands of different shapes, and a product
/// whose left column count differs from its right row count, both fail with
/// exactly that error.
pub proof fn lemma_mismatch_rejected(a: MatV, b: MatV)
    ensures
        a.rows != b.rows || a.cols != b.cols ==> sum_v(a, b) == Err::<MatV, CalcError>(
            CalcError::DimensionMismatch,
        ),
        a.cols != b.rows ==> mul_v(a, b) == Err::<MatV, CalcError>(CalcError::DimensionMismatch),
{
}

/// Transposing a square matrix value twice gives back the original: the
/// transpose computes, stays square, and its own transpose is the original
/// value.
pub proof fn lemma_transpose_involutive(a: MatV)
    requires
        mat_v_wf(a),
        a.rows == a.cols,
    ensures
        transpose_res_v(a) matches Ok(t) && transpose_res_v(t) == Ok::<MatV, CalcError>(a),
{
    assert(transpose_cells(transpose_cells(a.cells, a.rows, a.cols), a.cols, a.rows) =~~= a.cells);
}

/// Elementwise sum; fails with a dimension error unless both operands share
/// the same shape.
pub fn sum(ma: &Matrix, mb: &Matrix) -> (r: Result<Matrix, CalcError>)
    requires
        ma.wf(),
        mb.wf(),
    ensures
        mat_res_is(r, sum_v(ma@, mb@)),
{
    if ma.m != mb.m || ma.n != mb.n {
        return Err(CalcError::DimensionMismatch);
    }
    let mut mc = Matrix::new_empty(ma.m, ma.n);
    let mut i: usize = 0;
    while i < ma.m
        invariant
            ma.wf(),
            mb.wf(),
            mc.wf(),
            ma.m == mb.m,
            ma.n == mb.n,
            mc.m == ma.m,
            mc.n == ma.n,
            i <= ma.m,
            forall|a: int, b: int|
                0 <= a < i && 0 <= b < ma.n ==> q_fits(
                    q_norm(q_add(#[trigger] ma@.cells[a][b], mb@.cells[a][b])),
                ),
            forall|a: int, b: int|
                0 <= a < i && 0 <= b < ma.n ==> #[trigger] mc@.cells[a][b] == q_norm(
                    q_add(ma@.cells[a][b], mb@.cells[a][b]),
                ),
        decreases ma.m - i,
    {
        let mut j: usize = 0;
        while j < ma.n
            invariant
                ma.wf(),
                mb.wf(),
                mc.wf(),
                ma.m == mb.m,
                ma.n == mb.n,
                mc.m == ma.m,
                mc.n == ma.n,
                i < ma.m,
                j <= ma.n,
                forall|a: int, b: int|
                    0 <= a < i && 0 <= b < ma.n ==> q_fits(
                        q_norm(q_add(#[trigger] ma@.cells[a][b], mb@.cells[a][b])),
                    ),
                forall|a: int, b: int|
                    0 <= a < i && 0 <= b < ma.n ==> #[trigger] mc@.cells[a][b] == q_norm(
                        q_add(ma@.cells[a][b], mb@.cells[a][b]),
                    ),
                forall|b: int|
                    0 <= b < j ==> q_fits(
                        q_norm(q_add(#[trigger] ma@.cells[i as int][b], mb@.cells[i as int][b])),
                    ),
                forall|b: int|
                    0 <= b < j ==> #[trigger] mc@.cells[i as int][b] == q_norm(
                        q_add(ma@.cells[i as int][b], mb@.cells[i as int][b]),
                    ),
            decreases ma.n - j,
        {
            let x = ma.get(i, j);
            let y = mb.get(i, j);
            match x.checked_add(&y) {
                Some(v) => {
                    mc.set(i, j, v);
                },
                None => {
                    proof {
                        assert(!all_add_fits(ma@, mb@));
                    }
                    return Err(CalcError::Overflow);
                },
            }
            j = j + 1;
        }
        i = i + 1;
    }
    proof {
        assert(mc@.cells =~~= add_cells(ma@.cells, mb@.cells, ma@.cols));
    }
    Ok(mc)
}

/// Elementwise difference: the right operand scaled by minus one, then an
/// elementwise sum.
pub fn sub(ma: &Matrix, mb: &Matrix) -> (r: Result<Matrix, CalcError>)
    requires
        ma.wf(),
        mb.wf(),
    ensures
        mat_res_is(r, sub_v(ma@, mb@)),
{
    if ma.m != mb.m || ma.n != mb.n {
        return Err(CalcError::DimensionMismatch);
    }
    let neg_one = Rat::from_int(-1);
    match mul_scalar(mb, neg_one) {
        Err(e) => Err(e),
        Ok(nb) => sum(ma, &nb),
    }
}

/// Elementwise scaling by a scalar; the shape is kept.
pub fn mul_scalar(mat: &Matrix, num: Rat) -> (r: Result<Matrix, CalcError>)
    requires
        mat.wf(),
        num.wf(),
    ensures
        mat_res_is(r, mul_scalar_v(mat@, num@)),
{
    let mut res = Matrix::new_empty(mat.m, mat.n);
    let mut i: usize = 0;
    while i < mat.m
        invariant
            mat.wf(),
            res.wf(),
            num.wf(),
            res.m == mat.m,
            res.n == mat.n,
            i <= mat.m,
            forall|a: int, b: int|
                0 <= a < i && 0 <= b < mat.n ==> q_fits(
                    q_norm(q_mul(#[trigger] mat@.cells[a][b], num@)),
                ),
            forall|a: int, b: int|
                0 <= a < i && 0 <= b < mat.n ==> #[trigger] res@.cells[a][b] == q_norm(
                    q_mul(mat@.cells[a][b], num@),
                ),
        decreases mat.m - i,
    {
        let mut j: usize = 0;
        while j < mat.n
            invariant
                mat.wf(),
                res.wf(),
                num.wf(),
                res.m == mat.m,
                res.n == mat.n,
                i < mat.m,
                j <= mat.n,
                forall|a: int, b: int|
                    0 <= a < i && 0 <= b < mat.n ==> q_fits(
                        q_norm(q_mul(#[trigger] mat@.cells[a][b], num@)),
                    ),
                forall|a: int, b: int|
                    0 <= a < i && 0 <= b < mat.n ==> #[trigger] res@.cells[a][b] == q_norm(
                        q_mul(mat@.cells[a][b], num@),
                    ),
                forall|b: int|
                    0 <= b < j ==> q_fits(q_norm(q_mul(#[trigger] mat@.cells[i as int][b], num@))),
                forall|b: int|
                    0 <= b < j ==> #[trigger] res@.cells[i as int][b] == q_norm(
                        q_mul(mat@.cells[i as int][b], num@),
                    ),
            decreases mat.n - j,
        {
            let x = mat.get(i, j);
            match x.checked_mul(&num) {
                Some(v) => {
                    res.set(i, j, v);
                },
                None => {
                    proof {
                        assert(!all_scale_fits(mat@, num@));
                    }
                    return Err(CalcError::Overflow);
                },
            }
            j = j + 1;
        }
        i = i + 1;
    }
    proof {
        assert(res@.cells =~~= scale_cells(mat@.cells, num@, mat@.cols));
    }
    Ok(res)
}

/// The identity matrix of size `n`.
pub fn id_matrix(n: usize) -> (r: Matrix)
    ensures
        r.wf(),
        r@ == id_v(n as int),
{
    let mut res = Matrix::new_empty(n, n);
    let mut i: usize = 0;
    while i < n
        invariant
            res.wf(),
            res.m == n,
            res.n == n,
            i <= n,
            forall|a: int, b: int|
                0 <= a < n && 0 <= b < n && !(a == b && a < i) ==> res@.cells[a][b] == q_zero(),
            forall|a: int| 0 <= a < i ==> res@.cells[a][a] == q_one(),
        decreases n - i,
    {
        res.set(i, i, Rat::one());
        i = i + 1;
    }
    proof {
        assert(res@.cells =~~= id_cells(n as int));
    }
    res
}

/// The transpose of a square matrix; fails if not square.
pub fn transpose(m: &Matrix) -> (r: Result<Matrix, CalcError>)
    requires
        m.wf(),
    ensures
        mat_res_is(r, transpose_res_v(m@)),
{
    if !m.is_squared() {
        return Err(CalcError::DimensionMismatch);
    }
    let mut res = Matrix::new_empty(m.n, m.m);
    let mut i: usize = 0;
    while i < m.m
        invariant
            m.wf(),
            res.wf(),
            res.m == m.n,
            res.n == m.m,
            i <= m.m,
            forall|a: int, b: int|
                0 <= a < m.m && 0 <= b < m.n && a < i ==> #[trigger] res@.cells[b][a]
                    == m@.cells[a][b],
        decreases m.m - i,
    {
        let mut j: usize = 0;
        while j < m.n
            invariant
                m.wf(),
                res.wf(),
                res.m == m.n,
                res.n == m.m,
                i < m.m,
                j <= m.n,
                forall|a: int, b: int|
                    0 <= a < m.m && 0 <= b < m.n && a < i ==> #[trigger] res@.cells[b][a]
                        == m@.cells[a][b],
                forall|b: int|
                    0 <= b < j ==> #[trigger] res@.cells[b][i as int] == m@.cells[i as int][b],
            decreases m.n - j,
        {
            let x = m.get(i, j);
            res.set(j, i, x);
            j = j + 1;
        }
        i = i + 1;
    }
    proof {
        assert(res@.cells =~~= transpose_cells(m@.cells, m@.rows, m@.cols));
    }
    Ok(res)
}

/// Classic triple-loop matrix product; the result shape is `(ma.m, mb.n)`.
pub fn mul(ma: &Matrix, mb: &Matrix) -> (r: Result<Matrix, CalcError>)
    requires
        ma.wf(),
        mb.wf(),
    ensures
        mat_res_is(r, mul_v(ma@, mb@)),
{
    if ma.n != mb.m {
        return Err(CalcError::DimensionMismatch);
    }
    let mut res = Matrix::new_empty(ma.m, mb.n);
    let mut i: usize = 0;
    while i < ma.m
        invariant
            ma.wf(),
            mb.wf(),
            res.wf(),
            ma.n == mb.m,
            res.m == ma.m,
            res.n == mb.n,
            i <= ma.m,
            forall|a: int, b: int|
                0 <= a < i && 0 <= b < mb.n ==> (#[trigger] dot_chk(
                    ma@.cells[a],
                    mb@.cells,
                    b,
                    ma@.cols as nat,
                )) is Some,
            forall|a: int, b: int|
                0 <= a < i && 0 <= b < mb.n ==> #[trigger] res@.cells[a][b] == dot_chk(
                    ma@.cells[a],
                    mb@.cells,
                    b,
                    ma@.cols as nat,
                )->0,
        decreases ma.m - i,
    {
        let mut j: usize = 0;
        while j < mb.n
            invariant
                ma.wf(),
                mb.wf(),
                res.wf(),
                ma.n == mb.m,
                res.m == ma.m,
                res.n == mb.n,
                i < ma.m,
                j <= mb.n,
                forall|a: int, b: int|
                    0 <= a < i && 0 <= b < mb.n ==> (#[trigger] dot_chk(
                        ma@.cells[a],
                        mb@.cells,
                        b,
                        ma@.cols as nat,
                    )) is Some,
                forall|a: int, b: int|
                    0 <= a < i && 0 <= b < mb.n ==> #[trigger] res@.cells[a][b] == dot_chk(
                        ma@.cells[a],
                        mb@.cells,
                        b,
                        ma@.cols as nat,
                    )->0,
                forall|b: int|
                    0 <= b < j ==> (#[trigger] dot_chk(
                        ma@.cells[i as int],
                        mb@.cells,
                        b,
                        ma@.cols as nat,
                    )) is Some,
                forall|b: int|
                    0 <= b < j ==> #[trigger] res@.cells[i as int][b] == dot_chk(
                        ma@.cells[i as int],
                        mb@.cells,
                        b,
                        ma@.cols as nat,
                    )->0,
            decreases mb.n - j,
        {
            let mut value = Rat::zero();
            let mut k: usize = 0;
            while k < ma.n
                invariant
                    ma.wf(),
                    mb.wf(),
                    ma.n == mb.m,
                    i < ma.m,
                    j < mb.n,
                    k <= ma.n,
                    value.wf(),
                    dot_chk(ma@.cells[i as int], mb@.cells, j as int, k as nat) == Some(value@),
                decreases ma.n - k,
            {
                let x = ma.get(i, k);
                let y = mb.get(k, j);
                let p = match x.checked_mul(&y) {
                    Some(p) => p,
                    None => {
                        proof {
                            assert(dot_chk(
                                ma@.cells[i as int],
                                mb@.cells,
                                j as int,
                                (k + 1) as nat,
                            ) is None);
                            lemma_dot_none_mono(
                                ma@.cells[i as int],
                                mb@.cells,
                                j as int,
                                (k + 1) as nat,
                                ma@.cols as nat,
                            );
                            assert(!all_dot_fits(ma@, mb@));
                        }
                        return Err(CalcError::Overflow);
                    },
                };
                value = match value.checked_add(&p) {
                    Some(v) => v,
                    None => {
                        proof {
                            assert(dot_chk(
                                ma@.cells[i as int],
                                mb@.cells,
                                j as int,
                                (k + 1) as nat,
                            ) is None);
                            lemma_dot_none_mono(
                                ma@.cells[i as int],
                                mb@.cells,
                                j as int,
                                (k + 1) as nat,
                                ma@.cols as nat,
                            );
                            assert(!all_dot_fits(ma@, mb@));
                        }
                        return Err(CalcError::Overflow);
                    },
                };
                k = k + 1;
            }
            res.set(i, j, value);
            j = j + 1;
        }
        i = i + 1;
    }
    proof {
        assert(res@.cells =~~= mul_cells(ma@, mb@));
    }
    Ok(res)
}

/// The matrix raised to an integer power: fails on a non-square matrix,
/// yields the identity for exponent zero, a copy for exponent one, and
/// otherwise `exp - 1` repeated multiplications by the original matrix.
/// Negative exponents are unsupported.
pub fn pow(mat: &Matrix, exp: i8) -> (r: Result<Matrix, CalcError>)
    requires
        mat.wf(),
    ensures
        mat_res_is(r, pow_v(mat@, exp as int)),
{
    if !mat.is_squared() {
        return Err(CalcError::DimensionMismatch);
    }
    if exp < 0 {
        return Err(CalcError::UnsupportedOperation);
    }
    if exp == 0 {
        return Ok(id_matrix(mat.n));
    }
    let mut res = mat.clone();
    let mut i: i8 = 1;
    while i < exp
        invariant
            mat.wf(),
            res.wf(),
            mat.m == mat.n,
            1 <= i <= exp,
            pow_iter_v(mat@, i as nat) == Ok::<MatV, CalcError>(res@),
        decreases exp - i,
    {
        match crate::math::mul(&res, mat) {
            Ok(next) => {
                res = next;
            },
            Err(e) => {
                proof {
                    assert(pow_iter_v(mat@, (i + 1) as nat) == Err::<MatV, CalcError>(e));
                    lemma_pow_iter_err_mono(mat@, (i + 1) as nat, exp as nat);
                }
                return Err(e);
            },
        }
        i = i + 1;
    }
    Ok(res)
}

/// How many entries of a mask are still unhidden.
pub open spec fn count_false(s: Seq<bool>) -> nat
    decreases s.len(),
{
    if s.len() == 0 {
        0
    } else {
        count_false(s.drop_last()) + (if s.last() {
            0nat
        } else {
            1nat
        })
    }
}

/// Hiding one unhidden entry lowers the unhidden count by exactly one.
pub proof fn lemma_count_false_update(s: Seq<bool>, i: int)
    requires
        0 <= i < s.len(),
        !s[i],
    ensures
        count_false(s) >= 1,
        count_false(s.update(i, true)) == count_false(s) - 1,
    decreases s.len(),
{
    if i == s.len() - 1 {
        assert(s.update(i, true).drop_last() =~= s.drop_last());
        assert(s.update(i, true).last());
    } else {
        lemma_count_false_update(s.drop_last(), i);
        assert(s.update(i, true).drop_last() =~= s.drop_last().update(i, true));
        assert(s.update(i, true).last() == s.last());
    }
}

/// The first unhidden index at or after `i`, or the length when every entry
/// from `i` on is hidden.
pub open spec fn first_false(s: Seq<bool>, i: int) -> int
    decreases s.len() - i,
{
    if i < 0 || i >= s.len() {
        s.len() as int
    } else if !s[i] {
        i
    } else {
        first_false(s, i + 1)
    }
}

/// Scanning for the first unhidden index may start past a hidden prefix.
pub proof fn lemma_first_false_from(s: Seq<bool>, x: int)
    requires
        0 <= x <= s.len(),
        forall|y: int| 0 <= y < x ==> s[y],
    ensures
        first_false(s, 0) == first_false(s, x),
    decreases x,
{
    if x > 0 {
        lemma_first_false_from(s, x - 1);
        assert(s[x - 1]);
    }
}

/// The cofactor expansion of the unhidden part of `a`, along the first
/// unhidden row. `None` as soon as an exact intermediate does not fit.
pub open spec fn det_rec(a: Seq<Seq<Q>>, hr: Seq<bool>, hc: Seq<bool>) -> Option<Q>
    decreases count_false(hc), hc.len() + 1,
{
    let i = first_false(hr, 0);
    if i == hr.len() {
        Some(q_zero())
    } else {
        det_cols(a, hr, hc, i, 0, true, q_zero())
    }
}

/// One sweep over the columns of the expansion row `i`: each unhidden
/// column `j` contributes its cell times the sub-determinant with row `i`
/// and column `j` hidden, with the sign alternating per unhidden column.
/// When exactly one row and one column remain unhidden, the lone cell is
/// the result.
pub open spec fn det_cols(
    a: Seq<Seq<Q>>,
    hr: Seq<bool>,
    hc: Seq<bool>,
    i: int,
    j: int,
    sign: bool,
    acc: Q,
) -> Option<Q>
    decreases count_false(hc), hc.len() - j,
    via det_cols_dec
{
    if j < 0 || j >= hc.len() {
        Some(acc)
    } else if hc[j] {
        det_cols(a, hr, hc, i, j + 1, sign, acc)
    } else if count_false(hr) == 1 && count_false(hc) == 1 {
        Some(a[i][j])
    } else {
        match det_rec(a, hr.update(i, true), hc.update(j, true)) {
            None => None,
            Some(d) => match q_mul_chk(a[i][j], d) {
                None => None,
                Some(t1) => match q_mul_chk(
                    t1,
                    if sign {
                        q_one()
                    } else {
                        q_neg_one()
                    },
                ) {
                    None => None,
                    Some(t2) => match q_add_chk(acc, t2) {
                        None => None,
                        Some(acc2) => det_cols(a, hr, hc, i, j + 1, !sign, acc2),
                    },
                },
            },
        }
    }
}

#[via_fn]
proof fn det_cols_dec(a: Seq<Seq<Q>>, hr: Seq<bool>, hc: Seq<bool>, i: int, j: int, sign: bool, acc: Q) {
    if 0 <= j < hc.len() && !hc[j] && !(count_false(hr) == 1 && count_false(hc) == 1) {
        lemma_count_false_update(hc, j);
    }
}

pub open spec fn all_false_mask(len: int) -> Seq<bool> {
    Seq::new(len as nat, |x: int| false)
}

/// A mask hiding exactly one index.
pub open spec fn one_mask(len: int, at: int) -> Seq<bool> {
    Seq::new(len as nat, |x: int| x == at)
}

/// The determinant: fails on a non-square or zero-sized matrix, and
/// overflows when an exact intermediate of the expansion does not fit.
pub open spec fn det_v(a: MatV) -> Result<Q, CalcError> {
    if a.rows != a.cols || a.rows == 0 || a.cols == 0 {
        Err(CalcError::DimensionMismatch)
    } else {
        match det_rec(a.cells, all_false_mask(a.rows), all_false_mask(a.cols)) {
            None => Err(CalcError::Overflow),
            Some(v) => Ok(v),
        }
    }
}

fn count_false_vec(v: &Vec<bool>) -> (r: usize)
    ensures
        r as nat == count_false(v@),
{
    let mut c: usize = 0;
    let mut i: usize = 0;
    while i < v.len()
        invariant
            i <= v@.len(),
            c <= i,
            c as nat == count_false(v@.take(i as int)),
        decreases v@.len() - i,
    {
        proof {
            assert(v@.take(i + 1).drop_last() =~= v@.take(i as int));
            assert(v@.take(i + 1).last() == v@[i as int]);
        }
        if !v[i] {
            c = c + 1;
        }
        i = i + 1;
    }
    proof {
        assert(v@.take(v@.len() as int) =~= v@);
    }
    c
}

fn copy_bools(v: &Vec<bool>) -> (r: Vec<bool>)
    ensures
        r@ == v@,
{
    let mut r: Vec<bool> = Vec::new();
    let mut i: usize = 0;
    while i < v.len()
        invariant
            i <= v@.len(),
            r@.len() == i,
            forall|x: int| 0 <= x < i ==> r@[x] == v@[x],
        decreases v@.len() - i,
    {
        r.push(v[i]);
        i = i + 1;
    }
    proof {
        assert(r@ =~= v@);
    }
    r
}

fn falses(len: usize) -> (r: Vec<bool>)
    ensures
        r@ == all_false_mask(len as int),
{
    let mut r: Vec<bool> = Vec::new();
    let mut i: usize = 0;
    while i < len
        invariant
            i <= len,
            r@.len() == i,
            forall|x: int| 0 <= x < i ==> !r@[x],
        decreases len - i,
    {
        r.push(false);
        i = i + 1;
    }
    proof {
        assert(r@ =~= all_false_mask(len as int));
    }
    r
}

fn mask_vec(len: usize, at: usize) -> (r: Vec<bool>)
    ensures
        r@ == one_mask(len as int, at as int),
{
    let mut r: Vec<bool> = Vec::new();
    let mut i: usize = 0;
    while i < len
        invariant
            i <= len,
            r@.len() == i,
            forall|x: int| 0 <= x < i ==> r@[x] == (x == at as int),
        decreases len - i,
    {
        r.push(i == at);
        i = i + 1;
    }
    proof {
        assert(r@ =~= one_mask(len as int, at as int));
    }
    r
}

/// The cofactor expansion along the first row that `hr` leaves unhidden.
fn det_go(a: &Matrix, hr: &Vec<bool>, hc: &Vec<bool>) -> (r: Result<Rat, CalcError>)
    requires
        a.wf(),
        hr@.len() == a.m,
        hc@.len() == a.n,
    ensures
        match r {
            Ok(v) => v.wf() && det_rec(a@.cells, hr@, hc@) == Some(v@),
            Err(e) => e == CalcError::Overflow && det_rec(a@.cells, hr@, hc@) is None,
        },
    decreases count_false(hc@),
{
    let mut fi: usize = 0;
    while fi < hr.len() && hr[fi]
        invariant
            fi <= hr@.len(),
            forall|y: int| 0 <= y < fi ==> hr@[y],
        decreases hr@.len() - fi,
    {
        fi = fi + 1;
    }
    proof {
        lemma_first_false_from(hr@, fi as int);
    }
    if fi == hr.len() {
        return Ok(Rat::zero());
    }
    let mut j: usize = 0;
    let mut sign: bool = true;
    let mut acc = Rat::zero();
    while j < a.n
        invariant
            a.wf(),
            hr@.len() == a.m,
            hc@.len() == a.n,
            fi < a.m,
            !hr@[fi as int],
            j <= a.n,
            acc.wf(),
            det_cols(a@.cells, hr@, hc@, fi as int, j as int, sign, acc@) == det_rec(
                a@.cells,
                hr@,
                hc@,
            ),
        decreases a.n - j,
    {
        if !hc[j] {
            let cfr = count_false_vec(hr);
            let cfc = count_false_vec(hc);
            if cfr == 1 && cfc == 1 {
                return Ok(a.get(fi, j));
            }
            let mut hr2 = copy_bools(hr);
            let mut hc2 = copy_bools(hc);
            hr2[fi] = true;
            hc2[j] = true;
            proof {
                lemma_count_false_update(hc@, j as int);
            }
            let inner = match det_go(a, &hr2, &hc2) {
                Ok(v) => v,
                Err(e) => {
                    return Err(e);
                },
            };
            let x = a.get(fi, j);
            let t1 = match x.checked_mul(&inner) {
                Some(v) => v,
                None => {
                    return Err(CalcError::Overflow);
                },
            };
            let sgn = if sign {
                Rat::one()
            } else {
                Rat::from_int(-1)
            };
            let t2 = match t1.checked_mul(&sgn) {
                Some(v) => v,
                None => {
                    return Err(CalcError::Overflow);
                },
            };
            acc = match acc.checked_add(&t2) {
                Some(v) => v,
                None => {
                    return Err(CalcError::Overflow);
                },
            };
            sign = !sign;
        }
        j = j + 1;
    }
    Ok(acc)
}

/// The determinant, by recursive cofactor expansion along the first row;
/// fails unless the matrix is square and non-degenerate.
pub fn det(m: &Matrix) -> (r: Result<Rat, CalcError>)
    requires
        m.wf(),
    ensures
        match r {
            Ok(v) => v.wf() && det_v(m@) == Ok::<Q, CalcError>(v@),
            Err(e) => det_v(m@) == Err::<Q, CalcError>(e),
        },
{
    if !m.is_squared() || m.m == 0 || m.n == 0 {
        return Err(CalcError::DimensionMismatch);
    }
    let hr = falses(m.m);
    let hc = falses(m.n);
    match det_go(m, &hr, &hc) {
        Ok(v) => Ok(v),
        Err(e) => Err(e),
    }
}

/// One cell of the cofactor matrix: the sub-determinant with row `i` and
/// column `j` hidden, under the checkerboard sign for `(i, j)`.
pub open spec fn cof_cell(a: MatV, i: int, j: int) -> Option<Q> {
    match det_rec(a.cells, one_mask(a.rows, i), one_mask(a.cols, j)) {
        None => None,
        Some(d) => q_mul_chk(
            if (i + j) % 2 == 0 {
                q_one()
            } else {
                q_neg_one()
            },
            d,
        ),
    }
}

pub open spec fn all_cof_fits(a: MatV) -> bool {
    forall|i: int, j: int|
        0 <= i < a.rows && 0 <= j < a.cols ==> (#[trigger] cof_cell(a, i, j)) is Some
}

pub open spec fn adj_cells(a: MatV) -> Seq<Seq<Q>> {
    Seq::new(a.rows as nat, |i: int| Seq::new(a.cols as nat, |j: int| cof_cell(a, i, j)->0))
}

/// The cofactor matrix (not transposed): fails on a non-square matrix.
pub open spec fn adj_v(a: MatV) -> Result<MatV, CalcError> {
    if a.rows != a.cols {
        Err(CalcError::DimensionMismatch)
    } else if all_cof_fits(a) {
        Ok(MatV { rows: a.rows, cols: a.cols, cells: adj_cells(a) })
    } else {
        Err(CalcError::Overflow)
    }
}

proof fn lemma_parity(i: int, j: int)
    requires
        i >= 0,
        j >= 0,
    ensures
        ((i + j) % 2 == 0) <==> (i % 2 == j % 2),
{
    vstd::arithmetic::div_mod::lemma_add_mod_noop(i, j, 2);
}

/// The cofactor matrix, each cell keeping its own signed sub-determinant.
pub fn adj(m: &Matrix) -> (r: Result<Matrix, CalcError>)
    requires
        m.wf(),
    ensures
        mat_res_is(r, adj_v(m@)),
{
    if !m.is_squared() {
        return Err(CalcError::DimensionMismatch);
    }
    let mut res = Matrix::new_empty(m.n, m.m);
    let mut i: usize = 0;
    while i < m.m
        invariant
            m.wf(),
            res.wf(),
            m.m == m.n,
            res.m == m.m,
            res.n == m.n,
            i <= m.m,
            forall|a: int, b: int|
                0 <= a < i && 0 <= b < m.n ==> (#[trigger] cof_cell(m@, a, b)) is Some,
            forall|a: int, b: int|
                0 <= a < i && 0 <= b < m.n ==> #[trigger] res@.cells[a][b] == cof_cell(m@, a, b)->0,
        decreases m.m - i,
    {
        let mut j: usize = 0;
        while j < m.n
            invariant
                m.wf(),
                res.wf(),
                m.m == m.n,
                res.m == m.m,
                res.n == m.n,
                i < m.m,
                j <= m.n,
                forall|a: int, b: int|
                    0 <= a < i && 0 <= b < m.n ==> (#[trigger] cof_cell(m@, a, b)) is Some,
                forall|a: int, b: int|
                    0 <= a < i && 0 <= b < m.n ==> #[trigger] res@.cells[a][b] == cof_cell(
                        m@,
                        a,
                        b,
                    )->0,
                forall|b: int| 0 <= b < j ==> (#[trigger] cof_cell(m@, i as int, b)) is Some,
                forall|b: int|
                    0 <= b < j ==> #[trigger] res@.cells[i as int][b] == cof_cell(
                        m@,
                        i as int,
                        b,
                    )->0,
            decreases m.n - j,
        {
            let hr = mask_vec(m.m, i);
            let hc = mask_vec(m.n, j);
            let d = match det_go(m, &hr, &hc) {
                Ok(v) => v,
                Err(e) => {
                    proof {
                        assert(cof_cell(m@, i as int, j as int) is None);
                        assert(!all_cof_fits(m@));
                    }
                    return Err(CalcError::Overflow);
                },
            };
            let sgn = if (i % 2) == (j % 2) {
                Rat::one()
            } else {
                Rat::from_int(-1)
            };
            proof {
                lemma_parity(i as int, j as int);
            }
            let t = match sgn.checked_mul(&d) {
                Some(v) => v,
                None => {
                    proof {
                        assert(cof_cell(m@, i as int, j as int) is None);
                        assert(!all_cof_fits(m@));
                    }
                    return Err(CalcError::Overflow);
                },
            };
            res.set(i, j, t);
            j = j + 1;
        }
        i = i + 1;
    }
    proof {
        assert(res@.cells =~~= adj_cells(m@));
    }
    Ok(res)
}

/// The inverse: the cofactor matrix of the transpose, scaled by the
/// reciprocal of the determinant; fails with a singularity error when the
/// determinant is exactly zero.
pub open spec fn inv_v(a: MatV) -> Result<MatV, CalcError> {
    if a.rows != a.cols {
        Err(CalcError::DimensionMismatch)
    } else {
        match det_v(a) {
            Err(e) => Err(e),
            Ok(d) => if !q_is_zero(d) {
                match adj_v(transpose_v(a)) {
                    Err(e) => Err(e),
                    Ok(adjm) => match q_div_chk(q_one(), d) {
                        None => Err(CalcError::Overflow),
                        Some(s) => mul_scalar_v(adjm, s),
                    },
                }
            } else {
                Err(CalcError::SingularMatrix)
            },
        }
    }
}

/// The inverse of a square matrix with non-zero determinant.
pub fn inv(m: &Matrix) -> (r: Result<Matrix, CalcError>)
    requires
        m.wf(),
    ensures
        mat_res_is(r, inv_v(m@)),
{
    if !m.is_squared() {
        return Err(CalcError::DimensionMismatch);
    }
    let aux = match det(m) {
        Ok(v) => v,
        Err(e) => {
            return Err(e);
        },
    };
    if !aux.is_zero() {
        let trasp = match transpose(m) {
            Ok(t) => t,
            Err(e) => {
                return Err(e);
            },
        };
        let adjm = match adj(&trasp) {
            Ok(v) => v,
            Err(e) => {
                return Err(e);
            },
        };
        let one = Rat::one();
        let s = match one.checked_div(&aux) {
            Some(v) => v,
            None => {
                return Err(CalcError::Overflow);
            },
        };
        mul_scalar(&adjm, s)
    } else {
        Err(CalcError::SingularMatrix)
    }
}

/// The classification of an augmented linear system.
#[derive(Clone, Copy, Debug, PartialEq, Eq, Structural)]
pub enum Compatibility {
    CompatibleDeterminado,
    CompatibleIndeterminado,
    Incompatible,
}

impl Compatibility {
    /// Returns `true` if the compatibility is [`CompatibleDeterminado`].
    ///
    /// [`CompatibleDeterminado`]: Compatibility::CompatibleDeterminado
    #[must_use]
    pub fn is_compatible_determinado(&self) -> (r: bool)
        ensures
            r == (*self is CompatibleDeterminado),
    {
        matches!(self, Self::CompatibleDeterminado)
    }

    /// Returns `true` if the compatibility is [`CompatibleIndeterminado`].
    ///
    /// [`CompatibleIndeterminado`]: Compatibility::CompatibleIndeterminado
    #[must_use]
    pub fn is_compatible_indeterminado(&self) -> (r: bool)
        ensures
            r == (*self is CompatibleIndeterminado),
    {
        matches!(self, Self::CompatibleIndeterminado)
    }

    /// Returns `true` if the compatibility is [`Incompatible`].
    ///
    /// [`Incompatible`]: Compatibility::Incompatible
    #[must_use]
    pub fn is_incompatible(&self) -> (r: bool)
        ensures
            r == (*self is Incompatible),
    {
        matches!(self, Self::Incompatible)
    }
}

/// The index, among rows `k` to the last, of the row whose cell in column
/// `j` has the greatest magnitude; earlier rows win ties.
pub open spec fn max_row_from(c: Seq<Seq<Q>>, rows: int, j: int, k: int, best: int) -> int
    decreases rows - k,
{
    if k < 0 || k >= rows {
        best
    } else {
        max_row_from(
            c,
            rows,
            j,
            k + 1,
            if q_abs_gt(c[k][j], c[best][j]) {
                k
            } else {
                best
            },
        )
    }
}

pub open spec fn swap_rows_v(c: Seq<Seq<Q>>, i: int, k: int) -> Seq<Seq<Q>> {
    c.update(i, c[k]).update(k, c[i])
}

pub open spec fn norm_row_fits(row: Seq<Q>, p: Q, j: int) -> bool {
    forall|l: int| j <= l < row.len() ==> q_fits(q_norm(q_div(#[trigger] row[l], p)))
}

/// Row `row` with the cells from column `j` on divided by the pivot `p`.
pub open spec fn norm_row_cells(row: Seq<Q>, p: Q, j: int) -> Seq<Q> {
    Seq::new(
        row.len(),
        |l: int|
            if l < j {
                row[l]
            } else {
                q_norm(q_div(row[l], p))
            },
    )
}

/// Both exact intermediates of one elimination cell fit the machine
/// representation.
pub open spec fn elim_cell_ok(c: Seq<Seq<Q>>, i: int, j: int, k: int, l: int) -> bool {
    q_fits(q_norm(q_mul(c[k][j], c[i][l]))) && q_fits(
        q_norm(q_sub(c[k][l], q_norm(q_mul(c[k][j], c[i][l])))),
    )
}

pub open spec fn elim_fits(c: Seq<Seq<Q>>, i: int, j: int, rows: int, cols: int) -> bool {
    forall|k: int, l: int| i < k < rows && j <= l < cols ==> #[trigger] elim_cell_ok(c, i, j, k, l)
}

/// Every row below `i` gets, from column `j` on, its own cell minus the
/// row's old cell in column `j` times the pivot row's cell.
pub open spec fn elim_cells(c: Seq<Seq<Q>>, i: int, j: int, cols: int) -> Seq<Seq<Q>> {
    Seq::new(
        c.len(),
        |k: int|
            if k <= i {
                c[k]
            } else {
                Seq::new(
                    cols as nat,
                    |l: int|
                        if l < j {
                            c[k][l]
                        } else {
                            q_norm(q_sub(c[k][l], q_norm(q_mul(c[k][j], c[i][l]))))
                        },
                )
            },
    )
}

/// Row-echelon reduction with partial pivoting, one pivot column per step:
/// swap the greatest-magnitude candidate into place, skip the column when
/// the pivot is exactly zero, otherwise normalize the pivot row and
/// eliminate the column from the rows below. `None` as soon as an exact
/// intermediate does not fit.
pub open spec fn echelon(c: Seq<Seq<Q>>, rows: int, cols: int, i: int, j: int) -> Option<
    Seq<Seq<Q>>,
>
    decreases cols - j,
{
    if i < 0 || j < 0 || i >= rows || j >= cols {
        Some(c)
    } else {
        let mr = max_row_from(c, rows, j, i + 1, i);
        let b = if mr != i {
            swap_rows_v(c, i, mr)
        } else {
            c
        };
        if q_is_zero(b[i][j]) {
            echelon(b, rows, cols, i, j + 1)
        } else {
            let p = b[i][j];
            if !norm_row_fits(b[i], p, j) {
                None
            } else {
                let b2 = b.update(i, norm_row_cells(b[i], p, j));
                if !elim_fits(b2, i, j, rows, cols) {
                    None
                } else {
                    echelon(elim_cells(b2, i, j, cols), rows, cols, i + 1, j + 1)
                }
            }
        }
    }
}

pub open spec fn coeffs_zero(row: Seq<Q>, w: int) -> bool {
    forall|l: int| 0 <= l < w ==> q_is_zero(#[trigger] row[l])
}

/// Scans rows from `i` down to the first: a row with all-zero coefficient
/// cells but a non-zero augmented cell proves the system inconsistent
/// (`None`); otherwise the count of all-zero rows comes back.
pub open spec fn zero_rows_scan(c: Seq<Seq<Q>>, cols: int, i: int) -> Option<nat>
    decreases i + 1,
{
    if i < 0 {
        Some(0)
    } else if coeffs_zero(c[i], cols - 1) {
        if !q_is_zero(c[i][cols - 1]) {
            None
        } else {
            match zero_rows_scan(c, cols, i - 1) {
                None => None,
                Some(z) => Some(z + 1),
            }
        }
    } else {
        zero_rows_scan(c, cols, i - 1)
    }
}

/// The partial weighted sum of back substitution, accumulated left to
/// right over columns `l` to `w - 1`.
pub open spec fn bsum_go(row: Seq<Q>, x: Seq<Q>, w: int, l: int, acc: Q) -> Option<Q>
    decreases w - l,
{
    if l < 0 || l >= w {
        Some(acc)
    } else {
        match q_mul_chk(row[l], x[l]) {
            None => None,
            Some(p) => match q_add_chk(acc, p) {
                None => None,
                Some(acc2) => bsum_go(row, x, w, l + 1, acc2),
            },
        }
    }
}

/// Back substitution from unknown `i` down to the first: each unknown is
/// the augmented cell minus the weighted sum of the already-solved ones.
pub open spec fn back_go(c: Seq<Seq<Q>>, cols: int, x: Seq<Q>, i: int) -> Option<Seq<Q>>
    decreases i + 1,
{
    if i < 0 {
        Some(x)
    } else {
        match bsum_go(c[i], x, cols - 1, i + 1, q_zero()) {
            None => None,
            Some(s) => match q_sub_chk(c[i][cols - 1], s) {
                None => None,
                Some(v) => back_go(c, cols, x.update(i, v), i - 1),
            },
        }
    }
}

pub open spec fn col0(c: Seq<Seq<Q>>, w: int) -> Seq<Q> {
    Seq::new(w as nat, |l: int| c[l][0])
}

/// Classification of the augmented system: reduce to row echelon form,
/// then scan for inconsistent rows and compute the rank; a full-rank
/// system is solved by back substitution.
pub open spec fn solve_system_v(a: MatV) -> Result<Compatibility, CalcError> {
    match echelon(a.cells, a.rows, a.cols, 0, 0) {
        None => Err(CalcError::Overflow),
        Some(e) => match zero_rows_scan(e, a.cols, a.rows - 1) {
            None => Ok(Compatibility::Incompatible),
            Some(z) => if a.rows - z < a.cols - 1 {
                Ok(Compatibility::CompatibleIndeterminado)
            } else {
                match back_go(
                    e,
                    a.cols,
                    Seq::new((a.cols - 1) as nat, |l: int| q_zero()),
                    a.cols - 2,
                ) {
                    None => Err(CalcError::Overflow),
                    Some(x) => Ok(Compatibility::CompatibleDeterminado),
                }
            },
        },
    }
}

proof fn lemma_count_false2(s: Seq<bool>)
    requires
        s.len() == 2,
    ensures
        count_false(s) == (if s[0] {
            0nat
        } else {
            1nat
        }) + (if s[1] {
            0nat
        } else {
            1nat
        }),
{
    assert(s.drop_last().len() == 1);
    assert(s.drop_last().last() == s[0]);
    assert(s.drop_last().drop_last().len() == 0);
    assert(count_false(s.drop_last().drop_last()) == 0);
    assert(count_false(s.drop_last()) == count_false(s.drop_last().drop_last()) + (if s.drop_last().last() {
        0nat
    } else {
        1nat
    }));
    assert(count_false(s) == count_false(s.drop_last()) + (if s.last() {
        0nat
    } else {
        1nat
    }));
}

proof fn lemma_first_false2(s: Seq<bool>)
    requires
        s.len() == 2,
    ensures
        first_false(s, 0) == (if !s[0] {
            0int
        } else if !s[1] {
            1int
        } else {
            2int
        }),
{
    assert(first_false(s, 2) == 2);
    assert(first_false(s, 1) == (if !s[1] {
        1int
    } else {
        2int
    }));
}

/// A two-by-two sub-determinant with one row and one column hidden is the
/// lone remaining cell.
proof fn lemma_det_rec2_minor(c: Seq<Seq<Q>>, ri: int, cj: int)
    requires
        0 <= ri < 2,
        0 <= cj < 2,
    ensures
        det_rec(c, one_mask(2, ri), one_mask(2, cj)) == Some(c[1 - ri][1 - cj]),
{
    let hr = one_mask(2, ri);
    let hc = one_mask(2, cj);
    lemma_count_false2(hr);
    lemma_count_false2(hc);
    lemma_first_false2(hr);
    if cj == 0 {
        assert(det_cols(c, hr, hc, 1 - ri, 0, true, q_zero()) == det_cols(
            c,
            hr,
            hc,
            1 - ri,
            1,
            true,
            q_zero(),
        ));
        assert(det_cols(c, hr, hc, 1 - ri, 1, true, q_zero()) == Some(c[1 - ri][1]));
    } else {
        assert(det_cols(c, hr, hc, 1 - ri, 0, true, q_zero()) == Some(c[1 - ri][0]));
    }
    assert(det_rec(c, hr, hc) == det_cols(c, hr, hc, 1 - ri, 0, true, q_zero()));
}

/// The closed form of a two-by-two determinant.
pub open spec fn det2_raw(a: MatV) -> Q {
    q_sub(q_mul(a.cells[0][0], a.cells[1][1]), q_mul(a.cells[0][1], a.cells[1][0]))
}

/// A two-by-two determinant that computes denotes the difference of the
/// diagonal products.
proof fn lemma_det2(a: MatV)
    requires
        mat_v_wf(a),
        a.rows == 2,
        a.cols == 2,
    ensures
        match det_v(a) {
            Ok(d) => q_wf(d) && q_eq(d, det2_raw(a)),
            Err(_) => true,
        },
{
    let c = a.cells;
    let c00 = c[0][0];
    let c01 = c[0][1];
    let c10 = c[1][0];
    let c11 = c[1][1];
    let hr0 = all_false_mask(2);
    let hc0 = all_false_mask(2);
    lemma_count_false2(hr0);
    lemma_first_false2(hr0);
    assert(det_rec(c, hr0, hc0) == det_cols(c, hr0, hc0, 0, 0, true, q_zero()));
    assert(hr0.update(0, true) =~= one_mask(2, 0));
    assert(hc0.update(0, true) =~= one_mask(2, 0));
    assert(hc0.update(1, true) =~= one_mask(2, 1));
    lemma_det_rec2_minor(c, 0, 0);
    lemma_det_rec2_minor(c, 0, 1);
    let m1 = q_mul(c00, c11);
    let m2 = q_mul(c01, c10);
    lemma_q_ops_wf(c00, c11);
    lemma_q_ops_wf(c01, c10);
    let chk1 = q_mul_chk(c00, c11);
    if chk1 is None {
        assert(det_cols(c, hr0, hc0, 0, 0, true, q_zero()) is None);
    } else {
        let t1 = chk1->0;
        lemma_norm_eq(m1);
        assert(q_wf(t1) && q_eq(t1, m1));
        let chk2 = q_mul_chk(t1, q_one());
        if chk2 is None {
            assert(det_cols(c, hr0, hc0, 0, 0, true, q_zero()) is None);
        } else {
            let t2 = chk2->0;
            lemma_q_ops_wf(t1, q_one());
            lemma_norm_eq(q_mul(t1, q_one()));
            assert(q_mul(t1, q_one()) == (Q { n: t1.n, d: t1.d }));
            assert(q_eq(t2, t1));
            lemma_q_eq_trans(t2, t1, m1);
            let chk3 = q_add_chk(q_zero(), t2);
            if chk3 is None {
                assert(det_cols(c, hr0, hc0, 0, 0, true, q_zero()) is None);
            } else {
                let acc1 = chk3->0;
                lemma_q_ops_wf(q_zero(), t2);
                lemma_norm_eq(q_add(q_zero(), t2));
                assert(q_add(q_zero(), t2) == (Q { n: t2.n, d: t2.d })) by {
                    assert(0 * t2.d == 0) by (nonlinear_arith);
                    assert(t2.n * 1 == t2.n) by (nonlinear_arith);
                    assert(1 * t2.d == t2.d) by (nonlinear_arith);
                };
                assert(q_eq(acc1, t2));
                lemma_q_eq_trans(acc1, t2, m1);
                assert(det_cols(c, hr0, hc0, 0, 0, true, q_zero()) == det_cols(
                    c,
                    hr0,
                    hc0,
                    0,
                    1,
                    false,
                    acc1,
                ));
                let chk4 = q_mul_chk(c01, c10);
                if chk4 is None {
                    assert(det_cols(c, hr0, hc0, 0, 1, false, acc1) is None);
                } else {
                    let u1 = chk4->0;
                    lemma_norm_eq(m2);
                    assert(q_wf(u1) && q_eq(u1, m2));
                    let chk5 = q_mul_chk(u1, q_neg_one());
                    if chk5 is None {
                        assert(det_cols(c, hr0, hc0, 0, 1, false, acc1) is None);
                    } else {
                        let u2 = chk5->0;
                        lemma_q_ops_wf(u1, q_neg_one());
                        lemma_q_ops_wf(m2, q_neg_one());
                        lemma_norm_eq(q_mul(u1, q_neg_one()));
                        lemma_q_eq_mul_congr(u1, q_neg_one(), m2, q_neg_one());
                        lemma_q_eq_trans(u2, q_mul(u1, q_neg_one()), q_mul(m2, q_neg_one()));
                        let chk6 = q_add_chk(acc1, u2);
                        if chk6 is None {
                            assert(det_cols(c, hr0, hc0, 0, 1, false, acc1) is None);
                        } else {
                            let acc2 = chk6->0;
                            lemma_q_ops_wf(acc1, u2);
                            lemma_q_ops_wf(m1, q_mul(m2, q_neg_one()));
                            lemma_norm_eq(q_add(acc1, u2));
                            lemma_q_eq_add_congr(acc1, u2, m1, q_mul(m2, q_neg_one()));
                            lemma_q_eq_trans(
                                acc2,
                                q_add(acc1, u2),
                                q_add(m1, q_mul(m2, q_neg_one())),
                            );
                            assert(q_mul(m2, q_neg_one()) == (Q { n: -m2.n, d: m2.d })) by {
                                assert(m2.n * -1 == -m2.n) by (nonlinear_arith);
                                assert(m2.d * 1 == m2.d) by (nonlinear_arith);
                            };
                            assert(q_add(m1, Q { n: -m2.n, d: m2.d }) == det2_raw(a)) by {
                                assert(m1.n * m2.d + (-m2.n) * m1.d == m1.n * m2.d - m2.n
                                    * m1.d) by (nonlinear_arith);
                            };
                            assert(det_cols(c, hr0, hc0, 0, 1, false, acc1) == det_cols(
                                c,
                                hr0,
                                hc0,
                                0,
                                2,
                                true,
                                acc2,
                            ));
                            assert(det_cols(c, hr0, hc0, 0, 2, true, acc2) == Some(acc2));
                        }
                    }
                }
            }
        }
    }
}

/// One cofactor cell of a two-by-two matrix denotes the opposite-corner
/// cell, negated off the diagonal.
proof fn lemma_cof2_cell(t: MatV, i: int, j: int)
    requires
        mat_v_wf(t),
        t.rows == 2,
        t.cols == 2,
        0 <= i < 2,
        0 <= j < 2,
    ensures
        match cof_cell(t, i, j) {
            Some(v) => q_wf(v) && q_eq(
                v,
                if (i + j) % 2 == 0 {
                    t.cells[1 - i][1 - j]
                } else {
                    Q { n: -t.cells[1 - i][1 - j].n, d: t.cells[1 - i][1 - j].d }
                },
            ),
            None => true,
        },
{
    lemma_det_rec2_minor(t.cells, i, j);
    let m = t.cells[1 - i][1 - j];
    if (i + j) % 2 == 0 {
        if q_mul_chk(q_one(), m) is Some {
            lemma_q_ops_wf(q_one(), m);
            lemma_norm_eq(q_mul(q_one(), m));
            assert(q_mul(q_one(), m) == m) by {
                assert(1 * m.n == m.n) by (nonlinear_arith);
                assert(1 * m.d == m.d) by (nonlinear_arith);
            };
        }
    } else {
        if q_mul_chk(q_neg_one(), m) is Some {
            lemma_q_ops_wf(q_neg_one(), m);
            lemma_norm_eq(q_mul(q_neg_one(), m));
            assert(q_mul(q_neg_one(), m) == (Q { n: -m.n, d: m.d })) by {
                assert(-1 * m.n == -m.n) by (nonlinear_arith);
                assert(1 * m.d == m.d) by (nonlinear_arith);
            };
        }
    }
}

/// The cofactor matrix of a two-by-two matrix that computes denotes the
/// crossed-over matrix with the off-diagonal cells negated.
proof fn lemma_adj2(t: MatV)
    requires
        mat_v_wf(t),
        t.rows == 2,
        t.cols == 2,
    ensures
        match adj_v(t) {
            Ok(b) => {
                &&& b.rows == 2
                &&& b.cols == 2
                &&& q_wf(b.cells[0][0]) && q_eq(b.cells[0][0], t.cells[1][1])
                &&& q_wf(b.cells[0][1]) && q_eq(
                    b.cells[0][1],
                    Q { n: -t.cells[1][0].n, d: t.cells[1][0].d },
                )
                &&& q_wf(b.cells[1][0]) && q_eq(
                    b.cells[1][0],
                    Q { n: -t.cells[0][1].n, d: t.cells[0][1].d },
                )
                &&& q_wf(b.cells[1][1]) && q_eq(b.cells[1][1], t.cells[0][0])
            },
            Err(_) => true,
        },
{
    if adj_v(t) is Ok {
        assert(cof_cell(t, 0, 0) is Some);
        assert(cof_cell(t, 0, 1) is Some);
        assert(cof_cell(t, 1, 0) is Some);
        assert(cof_cell(t, 1, 1) is Some);
        lemma_cof2_cell(t, 0, 0);
        lemma_cof2_cell(t, 0, 1);
        lemma_cof2_cell(t, 1, 0);
        lemma_cof2_cell(t, 1, 1);
        let b = adj_v(t)->Ok_0;
        assert(b.cells[0][0] == cof_cell(t, 0, 0)->0);
        assert(b.cells[0][1] == cof_cell(t, 0, 1)->0);
        assert(b.cells[1][0] == cof_cell(t, 1, 0)->0);
        assert(b.cells[1][1] == cof_cell(t, 1, 1)->0);
    }
}

/// Transposing keeps well-formedness and swaps the cell indices.
proof fn lemma_transpose_wf(a: MatV)
    requires
        mat_v_wf(a),
    ensures
        mat_v_wf(transpose_v(a)),
        transpose_v(a).rows == a.cols,
        transpose_v(a).cols == a.rows,
        forall|i: int, j: int|
            0 <= i < a.cols && 0 <= j < a.rows ==> transpose_v(a).cells[i][j] == a.cells[j][i],
{
}

/// A value scaled by the reciprocal of another and scaled back denotes
/// itself.
proof fn lemma_scale_unscale(x: Q, sv: Q, dd: Q)
    requires
        q_wf(x),
        q_wf(sv),
        q_wf(dd),
        sv.n * dd.n == sv.d * dd.d,
    ensures
        q_eq(q_mul(q_mul(x, sv), dd), x),
{
    assert(((x.n * sv.n) * dd.n) * x.d == x.n * ((x.d * sv.d) * dd.d)) by (nonlinear_arith)
        requires
            sv.n * dd.n == sv.d * dd.d,
    ;
}

/// The inverse of a two-by-two matrix value, scaled by the determinant,
/// denotes the classical adjugate; the determinant's numerator is non-zero.
proof fn lemma_inv2(a: MatV)
    requires
        mat_v_wf(a),
        a.rows == 2,
        a.cols == 2,
    ensures
        match inv_v(a) {
            Ok(b) => {
                &&& b.rows == 2
                &&& b.cols == 2
                &&& q_wf(b.cells[0][0]) && q_wf(b.cells[0][1]) && q_wf(b.cells[1][0]) && q_wf(
                    b.cells[1][1],
                )
                &&& det2_raw(a).n != 0
                &&& q_eq(q_mul(b.cells[0][0], det2_raw(a)), a.cells[1][1])
                &&& q_eq(
                    q_mul(b.cells[0][1], det2_raw(a)),
                    Q { n: -a.cells[0][1].n, d: a.cells[0][1].d },
                )
                &&& q_eq(
                    q_mul(b.cells[1][0], det2_raw(a)),
                    Q { n: -a.cells[1][0].n, d: a.cells[1][0].d },
                )
                &&& q_eq(q_mul(b.cells[1][1], det2_raw(a)), a.cells[0][0])
            },
            Err(_) => true,
        },
{
    let dd = det2_raw(a);
    lemma_q_ops_wf(a.cells[0][0], a.cells[1][1]);
    lemma_q_ops_wf(a.cells[0][1], a.cells[1][0]);
    lemma_q_ops_wf(q_mul(a.cells[0][0], a.cells[1][1]), q_mul(a.cells[0][1], a.cells[1][0]));
    lemma_det2(a);
    if det_v(a) is Ok {
        let d = det_v(a)->Ok_0;
        if !q_is_zero(d) {
            assert(dd.n != 0) by (nonlinear_arith)
                requires
                    d.n * dd.d == dd.n * d.d,
                    d.n != 0,
                    dd.d >= 1,
                    d.d >= 1,
            ;
            let t = transpose_v(a);
            lemma_transpose_wf(a);
            lemma_adj2(t);
            if adj_v(t) is Ok {
                let b0 = adj_v(t)->Ok_0;
                if q_div_chk(q_one(), d) is Some {
                    let sv = q_div_chk(q_one(), d)->0;
                    lemma_q_div_wf(q_one(), d);
                    lemma_norm_eq(q_div(q_one(), d));
                    lemma_q_div_recip(d);
                    lemma_q_ops_wf(d, sv);
                    lemma_q_ops_wf(d, q_div(q_one(), d));
                    lemma_q_eq_mul_congr(d, sv, d, q_div(q_one(), d));
                    lemma_q_eq_trans(
                        q_mul(d, sv),
                        q_mul(d, q_div(q_one(), d)),
                        q_one(),
                    );
                    assert(sv.n * dd.n == sv.d * dd.d) by (nonlinear_arith)
                        requires
                            (d.n * sv.n) * 1 == 1 * (d.d * sv.d),
                            d.n * dd.d == dd.n * d.d,
                            d.d >= 1,
                    ;
                    if mul_scalar_v(b0, sv) is Ok {
                        let b = mul_scalar_v(b0, sv)->Ok_0;
                        assert(inv_v(a) == Ok::<MatV, CalcError>(b));
                        let e00 = t.cells[1][1];
                        let e01 = Q { n: -t.cells[1][0].n, d: t.cells[1][0].d };
                        let e10 = Q { n: -t.cells[0][1].n, d: t.cells[0][1].d };
                        let e11 = t.cells[0][0];
                        assert(b.cells[0][0] == q_norm(q_mul(b0.cells[0][0], sv)));
                        assert(b.cells[0][1] == q_norm(q_mul(b0.cells[0][1], sv)));
                        assert(b.cells[1][0] == q_norm(q_mul(b0.cells[1][0], sv)));
                        assert(b.cells[1][1] == q_norm(q_mul(b0.cells[1][1], sv)));
                        lemma_inv2_cell(b0.cells[0][0], e00, sv, dd);
                        lemma_inv2_cell(b0.cells[0][1], e01, sv, dd);
                        lemma_inv2_cell(b0.cells[1][0], e10, sv, dd);
                        lemma_inv2_cell(b0.cells[1][1], e11, sv, dd);
                    }
                }
            }
        }
    }
}

/// One inverse cell, scaled back by the determinant, denotes the adjugate
/// entry it came from.
proof fn lemma_inv2_cell(b0c: Q, e: Q, sv: Q, dd: Q)
    requires
        q_wf(b0c),
        q_wf(e),
        q_wf(sv),
        q_wf(dd),
        q_eq(b0c, e),
        sv.n * dd.n == sv.d * dd.d,
    ensures
        q_wf(q_norm(q_mul(b0c, sv))),
        q_eq(q_mul(q_norm(q_mul(b0c, sv)), dd), e),
{
    lemma_q_ops_wf(b0c, sv);
    lemma_q_ops_wf(e, sv);
    lemma_norm_eq(q_mul(b0c, sv));
    let bc = q_norm(q_mul(b0c, sv));
    lemma_q_eq_mul_congr(b0c, sv, e, sv);
    lemma_q_eq_trans(bc, q_mul(b0c, sv), q_mul(e, sv));
    lemma_q_eq_mul_congr(bc, dd, q_mul(e, sv), dd);
    lemma_q_ops_wf(q_mul(e, sv), dd);
    lemma_q_ops_wf(bc, dd);
    lemma_scale_unscale(e, sv, dd);
    lemma_q_eq_trans(q_mul(bc, dd), q_mul(q_mul(e, sv), dd), e);
}

/// Products of fractions associate, cell for cell.
proof fn lemma_q_mul_assoc(u: Q, v: Q, w: Q)
    ensures
        q_mul(q_mul(u, v), w) == q_mul(u, q_mul(v, w)),
{
    assert((u.n * v.n) * w.n == u.n * (v.n * w.n)) by (nonlinear_arith);
    assert((u.d * v.d) * w.d == u.d * (v.d * w.d)) by (nonlinear_arith);
}

/// Multiplication distributes over addition, up to value equality.
proof fn lemma_q_dist(u: Q, v: Q, w: Q)
    requires
        q_wf(u),
        q_wf(v),
        q_wf(w),
    ensures
        q_eq(q_mul(q_add(u, v), w), q_add(q_mul(u, w), q_mul(v, w))),
{
    assert(((u.n * v.d) * w.n) * ((u.d * w.d) * (v.d * w.d)) == ((u.n * w.n) * (v.d * w.d)) * ((u.d
        * v.d) * w.d)) by (nonlinear_arith);
    assert(((v.n * u.d) * w.n) * ((u.d * w.d) * (v.d * w.d)) == ((v.n * w.n) * (u.d * w.d)) * ((u.d
        * v.d) * w.d)) by (nonlinear_arith);
    assert(((u.n * v.d + v.n * u.d) * w.n) * ((u.d * w.d) * (v.d * w.d)) == ((u.n * v.d) * w.n) * (
    (u.d * w.d) * (v.d * w.d)) + ((v.n * u.d) * w.n) * ((u.d * w.d) * (v.d
        * w.d))) by (nonlinear_arith);
    assert((((u.n * w.n) * (v.d * w.d)) + ((v.n * w.n) * (u.d * w.d))) * ((u.d * v.d) * w.d) == ((
    u.n * w.n) * (v.d * w.d)) * ((u.d * v.d) * w.d) + ((v.n * w.n) * (u.d * w.d)) * ((u.d * v.d)
        * w.d)) by (nonlinear_arith);
}

/// The product of a combination `p*b1 + q*b2` with `dd` denotes the
/// combination of the scaled-back values `x` and `y`.
proof fn lemma_cell_product(p: Q, q: Q, b1: Q, b2: Q, x: Q, y: Q, dd: Q)
    requires
        q_wf(p),
        q_wf(q),
        q_wf(b1),
        q_wf(b2),
        q_wf(x),
        q_wf(y),
        q_wf(dd),
        q_eq(q_mul(b1, dd), x),
        q_eq(q_mul(b2, dd), y),
    ensures
        q_eq(q_mul(q_add(q_mul(p, b1), q_mul(q, b2)), dd), q_add(q_mul(p, x), q_mul(q, y))),
{
    let s1 = q_mul(p, b1);
    let s2 = q_mul(q, b2);
    lemma_q_ops_wf(p, b1);
    lemma_q_ops_wf(q, b2);
    lemma_q_ops_wf(s1, s2);
    lemma_q_ops_wf(s1, dd);
    lemma_q_ops_wf(s2, dd);
    lemma_q_dist(s1, s2, dd);
    lemma_q_mul_assoc(p, b1, dd);
    lemma_q_mul_assoc(q, b2, dd);
    lemma_q_ops_wf(b1, dd);
    lemma_q_ops_wf(b2, dd);
    lemma_q_ops_wf(p, q_mul(b1, dd));
    lemma_q_ops_wf(q, q_mul(b2, dd));
    lemma_q_ops_wf(p, x);
    lemma_q_ops_wf(q, y);
    lemma_q_eq_mul_congr(p, q_mul(b1, dd), p, x);
    lemma_q_eq_mul_congr(q, q_mul(b2, dd), q, y);
    lemma_q_eq_add_congr(q_mul(s1, dd), q_mul(s2, dd), q_mul(p, x), q_mul(q, y));
    lemma_q_ops_wf(q_mul(s1, dd), q_mul(s2, dd));
    lemma_q_ops_wf(q_mul(p, x), q_mul(q, y));
    lemma_q_ops_wf(q_add(s1, s2), dd);
    lemma_q_eq_trans(
        q_mul(q_add(s1, s2), dd),
        q_add(q_mul(s1, dd), q_mul(s2, dd)),
        q_add(q_mul(p, x), q_mul(q, y)),
    );
}

/// A value whose product with a non-zero `dd` denotes `dd` denotes one.
proof fn lemma_cancel_to_one(s: Q, dd: Q)
    requires
        q_wf(s),
        q_wf(dd),
        dd.n != 0,
        q_eq(q_mul(s, dd), dd),
    ensures
        q_eq(s, q_one()),
{
    assert(s.n * 1 == 1 * s.d) by (nonlinear_arith)
        requires
            (s.n * dd.n) * dd.d == dd.n * (s.d * dd.d),
            dd.n != 0,
            dd.d >= 1,
    ;
}

/// A value whose product with a non-zero `dd` denotes zero denotes zero.
proof fn lemma_cancel_to_zero(s: Q, dd: Q)
    requires
        q_wf(s),
        q_wf(dd),
        dd.n != 0,
        q_eq(q_mul(s, dd), q_zero()),
    ensures
        q_eq(s, q_zero()),
{
    assert(s.n * 1 == 0 * s.d) by (nonlinear_arith)
        requires
            (s.n * dd.n) * 1 == 0 * (s.d * dd.d),
            dd.n != 0,
    ;
}

/// A two-term dot product that computes denotes the sum of the two cell
/// products.
proof fn lemma_dot2(row: Seq<Q>, bc: Seq<Seq<Q>>, j: int)
    requires
        q_wf(row[0]),
        q_wf(row[1]),
        q_wf(bc[0][j]),
        q_wf(bc[1][j]),
    ensures
        match dot_chk(row, bc, j, 2) {
            Some(v) => q_wf(v) && q_eq(
                v,
                q_add(q_mul(row[0], bc[0][j]), q_mul(row[1], bc[1][j])),
            ),
            None => true,
        },
{
    let m1 = q_mul(row[0], bc[0][j]);
    let m2 = q_mul(row[1], bc[1][j]);
    lemma_q_ops_wf(row[0], bc[0][j]);
    lemma_q_ops_wf(row[1], bc[1][j]);
    assert(dot_chk(row, bc, j, 0) == Some(q_zero()));
    if q_mul_chk(row[0], bc[0][j]) is Some {
        let p1 = q_mul_chk(row[0], bc[0][j])->0;
        lemma_norm_eq(m1);
        if q_add_chk(q_zero(), p1) is Some {
            let s1 = q_add_chk(q_zero(), p1)->0;
            lemma_q_ops_wf(q_zero(), p1);
            lemma_norm_eq(q_add(q_zero(), p1));
            assert(q_add(q_zero(), p1) == (Q { n: p1.n, d: p1.d })) by {
                assert(0 * p1.d == 0) by (nonlinear_arith);
                assert(p1.n * 1 == p1.n) by (nonlinear_arith);
                assert(1 * p1.d == p1.d) by (nonlinear_arith);
            };
            lemma_q_eq_trans(s1, p1, m1);
            assert(dot_chk(row, bc, j, 1) == Some(s1));
            if q_mul_chk(row[1], bc[1][j]) is Some {
                let p2 = q_mul_chk(row[1], bc[1][j])->0;
                lemma_norm_eq(m2);
                if q_add_chk(s1, p2) is Some {
                    let s2 = q_add_chk(s1, p2)->0;
                    lemma_q_ops_wf(s1, p2);
                    lemma_q_ops_wf(m1, m2);
                    lemma_norm_eq(q_add(s1, p2));
                    lemma_q_eq_add_congr(s1, p2, m1, m2);
                    lemma_q_eq_trans(s2, q_add(s1, p2), q_add(m1, m2));
                    assert(dot_chk(row, bc, j, 2) == Some(s2));
                } else {
                    assert(dot_chk(row, bc, j, 2) is None);
                }
            } else {
                assert(dot_chk(row, bc, j, 2) is None);
            }
        } else {
            assert(dot_chk(row, bc, j, 1) is None);
            assert(dot_chk(row, bc, j, 2) is None);
        }
    } else {
        assert(dot_chk(row, bc, j, 1) is None);
        assert(dot_chk(row, bc, j, 2) is None);
    }
}

/// Multiplying a two-by-two matrix value by its computed inverse yields the
/// identity: whenever the inverse and the product both compute, every cell
/// of the product denotes the matching cell of the identity matrix. A
/// one-by-one matrix does not satisfy this: its lone cofactor is the empty
/// expansion, so its computed inverse is the zero matrix.
pub proof fn lemma_mul_inverse_identity_2x2(a: MatV, b: MatV, c: MatV)
    requires
        mat_v_wf(a),
        a.rows == 2,
        a.cols == 2,
        inv_v(a) == Ok::<MatV, CalcError>(b),
        mul_v(a, b) == Ok::<MatV, CalcError>(c),
    ensures
        mat_eq_val(c, id_v(2)),
{
    let p = a.cells[0][0];
    let q = a.cells[0][1];
    let r = a.cells[1][0];
    let s = a.cells[1][1];
    let dd = det2_raw(a);
    lemma_inv2(a);
    let b00 = b.cells[0][0];
    let b01 = b.cells[0][1];
    let b10 = b.cells[1][0];
    let b11 = b.cells[1][1];
    lemma_q_ops_wf(p, s);
    lemma_q_ops_wf(q, r);
    lemma_q_ops_wf(q_mul(p, s), q_mul(q, r));
    lemma_dot2(a.cells[0], b.cells, 0);
    lemma_dot2(a.cells[0], b.cells, 1);
    lemma_dot2(a.cells[1], b.cells, 0);
    lemma_dot2(a.cells[1], b.cells, 1);
    let c00 = c.cells[0][0];
    let c01 = c.cells[0][1];
    let c10 = c.cells[1][0];
    let c11 = c.cells[1][1];
    assert(c00 == dot_chk(a.cells[0], b.cells, 0, 2)->0);
    assert(c01 == dot_chk(a.cells[0], b.cells, 1, 2)->0);
    assert(c10 == dot_chk(a.cells[1], b.cells, 0, 2)->0);
    assert(c11 == dot_chk(a.cells[1], b.cells, 1, 2)->0);
    assert(dot_chk(a.cells[0], b.cells, 0, 2) is Some);
    assert(dot_chk(a.cells[0], b.cells, 1, 2) is Some);
    assert(dot_chk(a.cells[1], b.cells, 0, 2) is Some);
    assert(dot_chk(a.cells[1], b.cells, 1, 2) is Some);
    let nr = Q { n: -r.n, d: r.d };
    let nq = Q { n: -q.n, d: q.d };
    // c00 = p*b00 + q*b10 denotes one.
    let s00 = q_add(q_mul(p, b00), q_mul(q, b10));
    lemma_cell_product(p, q, b00, b10, s, nr, dd);
    assert(q_eq(q_add(q_mul(p, s), q_mul(q, nr)), dd)) by {
        assert(q_mul(q, nr) == (Q { n: -(q.n * r.n), d: q.d * r.d })) by {
            assert(q.n * -r.n == -(q.n * r.n)) by (nonlinear_arith);
        };
        assert(q_add(q_mul(p, s), Q { n: -(q.n * r.n), d: q.d * r.d }) == dd) by {
            assert((p.n * s.n) * (q.d * r.d) + (-((q.n * r.n))) * (p.d * s.d) == (p.n * s.n) * (q.d
                * r.d) - (q.n * r.n) * (p.d * s.d)) by (nonlinear_arith);
        };
    };
    lemma_q_ops_wf(p, b00);
    lemma_q_ops_wf(q, b10);
    lemma_q_ops_wf(q_mul(p, b00), q_mul(q, b10));
    lemma_q_ops_wf(s00, dd);
    lemma_q_ops_wf(p, s);
    lemma_q_ops_wf(q, nr);
    lemma_q_ops_wf(q_mul(p, s), q_mul(q, nr));
    lemma_q_eq_trans(q_mul(s00, dd), q_add(q_mul(p, s), q_mul(q, nr)), dd);
    lemma_cancel_to_one(s00, dd);
    lemma_q_eq_trans(c00, s00, q_one());
    // c01 = p*b01 + q*b11 denotes zero.
    let s01 = q_add(q_mul(p, b01), q_mul(q, b11));
    lemma_cell_product(p, q, b01, b11, nq, p, dd);
    lemma_q_ops_wf(p, nq);
    lemma_q_ops_wf(q, p);
    lemma_q_ops_wf(q_mul(p, nq), q_mul(q, p));
    assert(q_eq(q_add(q_mul(p, nq), q_mul(q, p)), q_zero())) by {
        assert((p.n * -q.n) * (q.d * p.d) + (q.n * p.n) * (p.d * q.d) == 0) by (nonlinear_arith);
    };
    lemma_q_ops_wf(p, b01);
    lemma_q_ops_wf(q, b11);
    lemma_q_ops_wf(q_mul(p, b01), q_mul(q, b11));
    lemma_q_ops_wf(s01, dd);
    lemma_q_eq_trans(q_mul(s01, dd), q_add(q_mul(p, nq), q_mul(q, p)), q_zero());
    lemma_cancel_to_zero(s01, dd);
    lemma_q_eq_trans(c01, s01, q_zero());
    // c10 = r*b00 + s*b10 denotes zero.
    let s10 = q_add(q_mul(r, b00), q_mul(s, b10));
    lemma_cell_product(r, s, b00, b10, s, nr, dd);
    lemma_q_ops_wf(r, s);
    lemma_q_ops_wf(s, nr);
    lemma_q_ops_wf(q_mul(r, s), q_mul(s, nr));
    assert(q_eq(q_add(q_mul(r, s), q_mul(s, nr)), q_zero())) by {
        assert((r.n * s.n) * (s.d * r.d) + (s.n * -r.n) * (r.d * s.d) == 0) by (nonlinear_arith);
    };
    lemma_q_ops_wf(r, b00);
    lemma_q_ops_wf(s, b10);
    lemma_q_ops_wf(q_mul(r, b00), q_mul(s, b10));
    lemma_q_ops_wf(s10, dd);
    lemma_q_eq_trans(q_mul(s10, dd), q_add(q_mul(r, s), q_mul(s, nr)), q_zero());
    lemma_cancel_to_zero(s10, dd);
    lemma_q_eq_trans(c10, s10, q_zero());
    // c11 = r*b01 + s*b11 denotes one.
    let s11 = q_add(q_mul(r, b01), q_mul(s, b11));
    lemma_cell_product(r, s, b01, b11, nq, p, dd);
    lemma_q_ops_wf(r, nq);
    lemma_q_ops_wf(s, p);
    lemma_q_ops_wf(q_mul(r, nq), q_mul(s, p));
    assert(q_eq(q_add(q_mul(r, nq), q_mul(s, p)), dd)) by {
        assert(((r.n * -q.n) * (s.d * p.d) + (s.n * p.n) * (r.d * q.d)) * ((p.d * s.d) * (q.d
            * r.d)) == ((p.n * s.n) * (q.d * r.d) - (q.n * r.n) * (p.d * s.d)) * ((r.d * q.d) * (
        s.d * p.d))) by (nonlinear_arith);
    };
    lemma_q_ops_wf(r, b01);
    lemma_q_ops_wf(s, b11);
    lemma_q_ops_wf(q_mul(r, b01), q_mul(s, b11));
    lemma_q_ops_wf(s11, dd);
    lemma_q_eq_trans(q_mul(s11, dd), q_add(q_mul(r, nq), q_mul(s, p)), dd);
    lemma_cancel_to_one(s11, dd);
    lemma_q_eq_trans(c11, s11, q_one());
    // Every cell of the product matches the identity.
    assert forall|i: int, j: int| 0 <= i < 2 && 0 <= j < 2 implies q_eq(
        #[trigger] c.cells[i][j],
        id_v(2).cells[i][j],
    ) by {
        if i == 0 && j == 0 {
            assert(q_eq(c.cells[0][0], q_one()));
        } else if i == 0 && j == 1 {
            assert(q_eq(c.cells[0][1], q_zero()));
        } else if i == 1 && j == 0 {
            assert(q_eq(c.cells[1][0], q_zero()));
        } else {
            assert(q_eq(c.cells[1][1], q_one()));
        }
    }
}

/// Swaps two rows in place.
pub fn swap_rows(m: &mut Matrix, i: usize, j: usize)
    requires
        old(m).wf(),
        i < old(m).m,
        j < old(m).m,
    ensures
        final(m).wf(),
        final(m).m == old(m).m,
        final(m).n == old(m).n,
        final(m)@.cells == swap_rows_v(old(m)@.cells, i as int, j as int),
{
    let cols = m.n;
    let mut col: usize = 0;
    while col < cols
        invariant
            m.wf(),
            m.m == old(m).m,
            m.n == old(m).n,
            cols == m.n,
            i < m.m,
            j < m.m,
            col <= cols,
            forall|b: int|
                0 <= b < col ==> m@.cells[i as int][b] == old(m)@.cells[j as int][b]
                    && m@.cells[j as int][b] == old(m)@.cells[i as int][b],
            forall|b: int|
                col <= b < cols ==> m@.cells[i as int][b] == old(m)@.cells[i as int][b]
                    && m@.cells[j as int][b] == old(m)@.cells[j as int][b],
            forall|a: int|
                0 <= a < m.m && a != i && a != j ==> m@.cells[a] == old(m)@.cells[a],
        decreases cols - col,
    {
        let t = m.get(j, col);
        let s = m.get(i, col);
        m.set(j, col, s);
        m.set(i, col, t);
        col = col + 1;
    }
    proof {
        assert(m@.cells =~~= swap_rows_v(old(m)@.cells, i as int, j as int));
    }
}

/// Builds the augmented matrix `A|b` from a coefficient matrix and a
/// column of results.
pub fn data_loading(m: &Matrix, results: &Matrix) -> (r: Matrix)
    requires
        m.wf(),
        results.wf(),
        m.m == m.n,
        m.m < usize::MAX,
        results.m >= m.n,
        results.n >= 1,
    ensures
        r.wf(),
        r.m == m.n,
        r.n == m.m + 1,
        forall|i: int, j: int|
            0 <= i < m.n && 0 <= j < m.m + 1 ==> r@.cells[i][j] == (if j < m.m {
                m@.cells[i][j]
            } else {
                results@.cells[i][0]
            }),
{
    let mut res = Matrix::new_empty(m.n, m.m + 1);
    let mut i: usize = 0;
    while i < m.n
        invariant
            m.wf(),
            results.wf(),
            res.wf(),
            m.m == m.n,
            m.m < usize::MAX,
            results.m >= m.n,
            results.n >= 1,
            res.m == m.n,
            res.n == m.m + 1,
            i <= m.n,
            forall|a: int, b: int|
                0 <= a < i && 0 <= b < m.m + 1 ==> res@.cells[a][b] == (if b < m.m {
                    m@.cells[a][b]
                } else {
                    results@.cells[a][0]
                }),
        decreases m.n - i,
    {
        let mut j: usize = 0;
        while j < m.m
            invariant
                m.wf(),
                results.wf(),
                res.wf(),
                m.m == m.n,
                m.m < usize::MAX,
                results.m >= m.n,
                results.n >= 1,
                res.m == m.n,
                res.n == m.m + 1,
                i < m.n,
                j <= m.m,
                forall|a: int, b: int|
                    0 <= a < i && 0 <= b < m.m + 1 ==> res@.cells[a][b] == (if b < m.m {
                        m@.cells[a][b]
                    } else {
                        results@.cells[a][0]
                    }),
                forall|b: int| 0 <= b < j ==> res@.cells[i as int][b] == m@.cells[i as int][b],
            decreases m.m - j,
        {
            let v = m.get(i, j);
            res.set(i, j, v);
            j = j + 1;
        }
        let rv = results.get(i, 0);
        let nn = m.m;
        res.set(i, nn, rv);
        i = i + 1;
    }
    res
}

/// Classifies the augmented system `A|b` by row-echelon reduction with
/// partial pivoting, rank inspection, and back substitution.
#[verifier::rlimit(100)]
#[verifier::loop_isolation(false)]
#[verifier::spinoff_prover]
pub fn solve_system(matrix: &Matrix) -> (r: Result<Compatibility, CalcError>)
    requires
        matrix.wf(),
        matrix.n >= 1,
    ensures
        r == solve_system_v(matrix@),
{
    let m = matrix.m;
    let n = matrix.n;
    let mut mx = matrix.clone();
    let ghost orig = matrix@.cells;

    let mut i: usize = 0;
    let mut j: usize = 0;
    while i < m && j < n
        invariant
            mx.wf(),
            mx.m == m,
            mx.n == n,
            i <= m,
            j <= n,
            echelon(mx@.cells, m as int, n as int, i as int, j as int) == echelon(
                orig,
                m as int,
                n as int,
                0,
                0,
            ),
        decreases n - j,
    {
        let ghost c0 = mx@.cells;
        let mut max_row: usize = i;
        let mut k: usize = i + 1;
        while k < m
            invariant
                i <= max_row < m,
                i + 1 <= k <= m || (i + 1 > m && k == i + 1),
                mx@.cells == c0,
                max_row_from(c0, m as int, j as int, k as int, max_row as int) == max_row_from(
                    c0,
                    m as int,
                    j as int,
                    i as int + 1,
                    i as int,
                ),
            decreases m - k,
        {
            let a = mx.get(k, j);
            let b = mx.get(max_row, j);
            if a.abs_gt(&b) {
                max_row = k;
            }
            k = k + 1;
        }
        proof {
            assert(max_row as int == max_row_from(c0, m as int, j as int, i as int + 1, i as int));
        }
        if max_row != i {
            swap_rows(&mut mx, i, max_row);
        }
        let ghost bcells = mx@.cells;
        proof {
            assert(bcells == (if max_row as int != i as int {
                swap_rows_v(c0, i as int, max_row as int)
            } else {
                c0
            }));
        }
        let piv = mx.get(i, j);
        if piv.is_zero() {
            j = j + 1;
        } else {
            let mut l: usize = j;
            while l < n
                invariant
                    mx.wf(),
                    mx.m == m,
                    mx.n == n,
                    j <= l <= n,
                    forall|a: int| 0 <= a < m && a != i ==> mx@.cells[a] == bcells[a],
                    forall|l2: int|
                        0 <= l2 < j || l <= l2 < n ==> mx@.cells[i as int][l2] == bcells[i as int][l2],
                    forall|l2: int|
                        j <= l2 < l ==> q_fits(q_norm(q_div(#[trigger] bcells[i as int][l2], piv@)))
                            && mx@.cells[i as int][l2] == q_norm(
                            q_div(bcells[i as int][l2], piv@),
                        ),
                decreases n - l,
            {
                let c = mx.get(i, l);
                match c.checked_div(&piv) {
                    Some(v) => {
                        mx.set(i, l, v);
                    },
                    None => {
                        proof {
                            assert(!q_fits(q_norm(q_div(bcells[i as int][l as int], piv@))));
                            assert(!norm_row_fits(bcells[i as int], piv@, j as int));
                            assert(echelon(c0, m as int, n as int, i as int, j as int) is None);
                        }
                        return Err(CalcError::Overflow);
                    },
                }
                l = l + 1;
            }
            proof {
                assert(norm_row_fits(bcells[i as int], piv@, j as int));
                assert(mx@.cells =~~= bcells.update(
                    i as int,
                    norm_row_cells(bcells[i as int], piv@, j as int),
                ));
            }
            let ghost c2 = mx@.cells;
            let mut k2: usize = i + 1;
            while k2 < m
                invariant
                    mx.wf(),
                    mx.m == m,
                    mx.n == n,
                    i + 1 <= k2 <= m || (i + 1 > m && k2 == i + 1),
                    forall|a: int| 0 <= a <= i ==> mx@.cells[a] == c2[a],
                    forall|a: int| k2 <= a < m ==> mx@.cells[a] == c2[a],
                    forall|a: int, b: int|
                        i < a < k2 && j <= b < n ==> #[trigger] elim_cell_ok(
                            c2,
                            i as int,
                            j as int,
                            a,
                            b,
                        ),
                    forall|a: int, b: int|
                        i < a < k2 && 0 <= b < n ==> #[trigger] mx@.cells[a][b] == (if b < j {
                            c2[a][b]
                        } else {
                            q_norm(q_sub(c2[a][b], q_norm(q_mul(c2[a][j as int], c2[i as int][b]))))
                        }),
                decreases m - k2,
            {
                let factor = mx.get(k2, j);
                let mut l2: usize = j;
                while l2 < n
                    invariant
                        mx.wf(),
                        mx.m == m,
                        mx.n == n,
                        k2 < m,
                        j <= l2 <= n,
                        factor.wf(),
                        factor@ == c2[k2 as int][j as int],
                        forall|a: int| 0 <= a <= i ==> mx@.cells[a] == c2[a],
                        forall|a: int| k2 < a < m ==> mx@.cells[a] == c2[a],
                        forall|a: int, b: int|
                            i < a < k2 && j <= b < n ==> #[trigger] elim_cell_ok(
                                c2,
                                i as int,
                                j as int,
                                a,
                                b,
                            ),
                        forall|a: int, b: int|
                            i < a < k2 && 0 <= b < n ==> #[trigger] mx@.cells[a][b] == (if b < j {
                                c2[a][b]
                            } else {
                                q_norm(
                                    q_sub(
                                        c2[a][b],
                                        q_norm(q_mul(c2[a][j as int], c2[i as int][b])),
                                    ),
                                )
                            }),
                        forall|b: int|
                            0 <= b < j || l2 <= b < n ==> mx@.cells[k2 as int][b] == c2[k2 as int][b],
                        forall|b: int|
                            j <= b < l2 ==> #[trigger] elim_cell_ok(c2, i as int, j as int, k2 as int, b)
                                && mx@.cells[k2 as int][b] == q_norm(
                                q_sub(
                                    c2[k2 as int][b],
                                    q_norm(q_mul(c2[k2 as int][j as int], c2[i as int][b])),
                                ),
                            ),
                    decreases n - l2,
                {
                    let a_ = mx.get(k2, l2);
                    let b_ = mx.get(i, l2);
                    let t = match factor.checked_mul(&b_) {
                        Some(v) => v,
                        None => {
                            proof {
                                assert(!q_fits(
                                    q_norm(q_mul(c2[k2 as int][j as int], c2[i as int][l2 as int])),
                                ));
                                assert(!elim_cell_ok(c2, i as int, j as int, k2 as int, l2 as int));
                                assert(!elim_fits(c2, i as int, j as int, m as int, n as int));
                                assert(echelon(c0, m as int, n as int, i as int, j as int) is None);
                            }
                            return Err(CalcError::Overflow);
                        },
                    };
                    let v = match a_.checked_sub(&t) {
                        Some(v) => v,
                        None => {
                            proof {
                                assert(!q_fits(
                                    q_norm(
                                        q_sub(
                                            c2[k2 as int][l2 as int],
                                            q_norm(
                                                q_mul(
                                                    c2[k2 as int][j as int],
                                                    c2[i as int][l2 as int],
                                                ),
                                            ),
                                        ),
                                    ),
                                ));
                                assert(!elim_cell_ok(c2, i as int, j as int, k2 as int, l2 as int));
                                assert(!elim_fits(c2, i as int, j as int, m as int, n as int));
                                assert(echelon(c0, m as int, n as int, i as int, j as int) is None);
                            }
                            return Err(CalcError::Overflow);
                        },
                    };
                    mx.set(k2, l2, v);
                    proof {
                        assert(elim_cell_ok(c2, i as int, j as int, k2 as int, l2 as int));
                        assert(mx@.cells[k2 as int][l2 as int] == q_norm(
                            q_sub(
                                c2[k2 as int][l2 as int],
                                q_norm(q_mul(c2[k2 as int][j as int], c2[i as int][l2 as int])),
                            ),
                        ));
                        assert forall|b: int| j <= b < l2 + 1 implies #[trigger] elim_cell_ok(
                            c2,
                            i as int,
                            j as int,
                            k2 as int,
                            b,
                        ) && mx@.cells[k2 as int][b] == q_norm(
                            q_sub(
                                c2[k2 as int][b],
                                q_norm(q_mul(c2[k2 as int][j as int], c2[i as int][b])),
                            ),
                        ) by {
                            if b < l2 {
                                assert(elim_cell_ok(c2, i as int, j as int, k2 as int, b));
                            }
                        }
                    }
                    l2 = l2 + 1;
                }
                proof {
                    assert forall|b: int| 0 <= b < n implies #[trigger] mx@.cells[k2 as int][b]
                        == (if b < j {
                        c2[k2 as int][b]
                    } else {
                        q_norm(
                            q_sub(
                                c2[k2 as int][b],
                                q_norm(q_mul(c2[k2 as int][j as int], c2[i as int][b])),
                            ),
                        )
                    }) by {
                        if j <= b < n {
                            assert(elim_cell_ok(c2, i as int, j as int, k2 as int, b));
                        }
                    }
                }
                k2 = k2 + 1;
            }
            proof {
                assert(elim_fits(c2, i as int, j as int, m as int, n as int));
                assert(mx@.cells =~~= elim_cells(c2, i as int, j as int, n as int));
                assert(echelon(c0, m as int, n as int, i as int, j as int) == echelon(
                    mx@.cells,
                    m as int,
                    n as int,
                    i as int + 1,
                    j as int + 1,
                ));
            }
            i = i + 1;
            j = j + 1;
        }
    }
    let ghost ech = mx@.cells;
    proof {
        assert(echelon(ech, m as int, n as int, i as int, j as int) == Some(ech));
    }

    let mut rank: usize = m;
    let mut ii: usize = m;
    while ii > 0
        invariant
            ii <= rank <= m,
            match zero_rows_scan(ech, n as int, ii as int - 1) {
                None => zero_rows_scan(ech, n as int, m as int - 1) is None,
                Some(z) => zero_rows_scan(ech, n as int, m as int - 1) == Some(
                    (z + (m - rank)) as nat,
                ),
            },
        decreases ii,
    {
        let i2 = ii - 1;
        let mut nonzero = false;
        let mut l3: usize = 0;
        while l3 < n - 1
            invariant
                l3 <= n - 1,
                nonzero == !(forall|l: int|
                    0 <= l < l3 ==> q_is_zero(#[trigger] ech[i2 as int][l])),
            decreases n - 1 - l3,
        {
            let c = mx.get(i2, l3);
            if !c.is_zero() {
                nonzero = true;
            }
            l3 = l3 + 1;
        }
        if !nonzero {
            proof {
                assert(coeffs_zero(ech[i2 as int], n as int - 1));
            }
            let aug = mx.get(i2, n - 1);
            if !aug.is_zero() {
                proof {
                    assert(zero_rows_scan(ech, n as int, i2 as int) is None);
                }
                return Ok(Compatibility::Incompatible);
            }
            rank = rank - 1;
        } else {
            proof {
                assert(!coeffs_zero(ech[i2 as int], n as int - 1));
            }
        }
        ii = ii - 1;
    }
    if rank < n - 1 {
        return Ok(Compatibility::CompatibleIndeterminado);
    }

    let w = n - 1;
    let mut x = Matrix::new_empty(w, 1);
    let ghost x0 = Seq::new(w as nat, |l: int| q_zero());
    proof {
        assert(col0(x@.cells, w as int) =~= x0);
        assert(w <= m);
    }
    let mut jj: usize = w;
    while jj > 0
        invariant
            x.wf(),
            x.m == w,
            x.n == 1,
            jj <= w,
            back_go(ech, n as int, col0(x@.cells, w as int), jj as int - 1) == back_go(
                ech,
                n as int,
                x0,
                w as int - 1,
            ),
        decreases jj,
    {
        let i3 = jj - 1;
        let ghost xs = col0(x@.cells, w as int);
        let mut sum = Rat::zero();
        let mut l4: usize = i3 + 1;
        while l4 < w
            invariant
                i3 + 1 <= l4 <= w,
                sum.wf(),
                x.wf(),
                x.m == w,
                x.n == 1,
                xs == col0(x@.cells, w as int),
                bsum_go(ech[i3 as int], xs, w as int, l4 as int, sum@) == bsum_go(
                    ech[i3 as int],
                    xs,
                    w as int,
                    i3 as int + 1,
                    q_zero(),
                ),
            decreases w - l4,
        {
            let a4 = mx.get(i3, l4);
            let b4 = x.get(l4, 0);
            proof {
                assert(xs[l4 as int] == x@.cells[l4 as int][0]);
            }
            let t = match a4.checked_mul(&b4) {
                Some(v) => v,
                None => {
                    proof {
                        assert(bsum_go(ech[i3 as int], xs, w as int, i3 as int + 1, q_zero())
                            is None);
                        assert(back_go(ech, n as int, xs, i3 as int) is None);
                    }
                    return Err(CalcError::Overflow);
                },
            };
            sum = match sum.checked_add(&t) {
                Some(v) => v,
                None => {
                    proof {
                        assert(bsum_go(ech[i3 as int], xs, w as int, i3 as int + 1, q_zero())
                            is None);
                        assert(back_go(ech, n as int, xs, i3 as int) is None);
                    }
                    return Err(CalcError::Overflow);
                },
            };
            l4 = l4 + 1;
        }
        let aug = mx.get(i3, n - 1);
        let v = match aug.checked_sub(&sum) {
            Some(v) => v,
            None => {
                proof {
                    assert(back_go(ech, n as int, xs, i3 as int) is None);
                }
                return Err(CalcError::Overflow);
            },
        };
        x.set(i3, 0, v);
        proof {
            assert(col0(x@.cells, w as int) =~= xs.update(i3 as int, v@));
        }
        jj = jj - 1;
    }
    Ok(Compatibility::CompatibleDeterminado)
}

} // verus!
