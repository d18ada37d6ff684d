//! The network itself: activations, one-hot encoding, forward and backward
//! propagation, the gradient-descent update, prediction and accuracy, and
//! the training loop.

use vstd::prelude::*;

use crate::fixed::{exp_neg, fixdiv, fixmul, in_range, lemma_spec_exp_neg_bounds, quot_toward_zero,
    spec_exp_neg, DIM_MAX, SCALE, VAL_MAX};
use crate::matrix::{add_bias, all_in_range, elem_mul, mat_mul_div, mat_sub, row_mean, sadd_bias,
    scol, semul, smm, srow_mean, ssub, ssum, stranspose, svec_wf, to_ints, Matrix};
use crate::Error;

verus! {

/// The number of output classes (decimal digits).
pub const NUM_CLASSES: usize = 10;

/// The rectifier applied to one entry.
pub open spec fn relu_val(x: int) -> int {
    if x > 0 {
        x
    } else {
        0
    }
}

/// The derivative of the rectifier at one entry: `ONE` on strictly
/// positive inputs, zero elsewhere.
pub open spec fn relu_deriv_val(x: int) -> int {
    if x > 0 {
        SCALE as int
    } else {
        0
    }
}

/// The rectifier applied to every entry of `m`.
pub open spec fn srelu(m: Seq<Seq<int>>) -> Seq<Seq<int>> {
    Seq::new(m.len(), |i: int| Seq::new(m[i].len(), |j: int| relu_val(m[i][j])))
}

/// The rectifier derivative applied to every entry of `m`.
pub open spec fn sderiv(m: Seq<Seq<int>>) -> Seq<Seq<int>> {
    Seq::new(m.len(), |i: int| Seq::new(m[i].len(), |j: int| relu_deriv_val(m[i][j])))
}

/// The one-hot encoding of the label vector `y`: a `NUM_CLASSES x len(y)`
/// matrix whose column `c` holds `ONE` at row `y[c]` and zero elsewhere.
pub open spec fn sonehot(y: Seq<usize>) -> Seq<Seq<int>> {
    Seq::new(
        NUM_CLASSES as nat,
        |r: int| Seq::new(y.len(), |c: int| if y[c] as int == r { SCALE as int } else { 0 }),
    )
}

/// How many of the first `k` positions of `p` and `y` agree.
pub open spec fn count_eq(p: Seq<usize>, y: Seq<usize>, k: nat) -> int
    decreases k,
{
    if k == 0 {
        0
    } else {
        count_eq(p, y, (k - 1) as nat) + if p[k - 1] == y[k - 1] {
            1int
        } else {
            0int
        }
    }
}

/// At most `k` of the first `k` positions can agree.
pub proof fn lemma_count_eq_bounds(p: Seq<usize>, y: Seq<usize>, k: nat)
    ensures
        0 <= count_eq(p, y, k) <= k,
    decreases k,
{
    if k > 0 {
        lemma_count_eq_bounds(p, y, (k - 1) as nat);
    }
}

/// The maximum of the first `k` entries of column `j` of `m` (`k >= 1`).
pub open spec fn smax_col(m: Seq<Seq<int>>, j: int, k: nat) -> int
    decreases k,
{
    if k <= 1 {
        m[0][j]
    } else {
        let rest = smax_col(m, j, (k - 1) as nat);
        if m[k - 1][j] > rest {
            m[k - 1][j]
        } else {
            rest
        }
    }
}

/// Sum over the first `k` rows of column `j` of the negative exponentials
/// of the distance to `mx`.
pub open spec fn sexp_col_sum(m: Seq<Seq<int>>, j: int, mx: int, k: nat) -> int
    decreases k,
{
    if k == 0 {
        0
    } else {
        sexp_col_sum(m, j, mx, (k - 1) as nat) + spec_exp_neg(mx - m[k - 1][j])
    }
}

/// Entry `(i, j)` of the softmax of `m`: the exponential of the entry's
/// distance to its column's maximum, normalised by the column's sum of
/// exponentials, in fixed point with truncating division.
pub open spec fn ssoftmax_entry(m: Seq<Seq<int>>, i: int, j: int) -> int {
    let mx = smax_col(m, j, m.len());
    let total = sexp_col_sum(m, j, mx, m.len());
    spec_exp_neg(mx - m[i][j]) * (SCALE as int) / total
}

/// The column-wise softmax of `m` (`c` is the column count of `m`).
pub open spec fn ssoftmax(m: Seq<Seq<int>>, c: nat) -> Seq<Seq<int>> {
    Seq::new(m.len(), |i: int| Seq::new(c, |j: int| ssoftmax_entry(m, i, j)))
}

/// Sum of the first `k` softmax entries of column `j`.
pub open spec fn ssoftmax_col_psum(m: Seq<Seq<int>>, j: int, k: nat) -> int
    decreases k,
{
    if k == 0 {
        0
    } else {
        ssoftmax_col_psum(m, j, (k - 1) as nat) + ssoftmax_entry(m, (k - 1) as int, j)
    }
}

/// The column maximum dominates the entries it covers and is attained.
pub proof fn lemma_smax_col(m: Seq<Seq<int>>, j: int, k: nat)
    requires
        1 <= k,
    ensures
        forall|i: int| 0 <= i < k ==> #[trigger] m[i][j] <= smax_col(m, j, k),
        exists|i: int| 0 <= i < k && #[trigger] m[i][j] == smax_col(m, j, k),
    decreases k,
{
    if k == 1 {
        assert(m[0][j] == smax_col(m, j, 1));
    } else {
        lemma_smax_col(m, j, (k - 1) as nat);
        if m[k - 1][j] > smax_col(m, j, (k - 1) as nat) {
            assert(m[k - 1 as int][j] == smax_col(m, j, k));
        } else {
            let w = choose|i: int| 0 <= i < k - 1 && #[trigger] m[i][j] == smax_col(m, j, (k - 1) as nat);
            assert(m[w][j] == smax_col(m, j, k));
        }
    }
}

/// The exponential column sums are nonnegative, at most `k * ONE`, and at
/// least `ONE` once they cover a row attaining the maximum.
pub proof fn lemma_sexp_col_sum_bounds(m: Seq<Seq<int>>, j: int, mx: int, k: nat)
    requires
        forall|i: int| 0 <= i < k ==> #[trigger] m[i][j] <= mx,
    ensures
        0 <= sexp_col_sum(m, j, mx, k) <= k * SCALE,
        (exists|i: int| 0 <= i < k && #[trigger] m[i][j] == mx)
            ==> sexp_col_sum(m, j, mx, k) >= SCALE,
    decreases k,
{
    if k == 0 {
        assert(0 * SCALE == 0) by (nonlinear_arith);
    } else {
        lemma_sexp_col_sum_bounds(m, j, mx, (k - 1) as nat);
        lemma_spec_exp_neg_bounds(mx - m[k - 1][j]);
        assert(k * SCALE == (k - 1) * SCALE + SCALE) by (nonlinear_arith);
        if exists|i: int| 0 <= i < k && #[trigger] m[i][j] == mx {
            let w = choose|i: int| 0 <= i < k && #[trigger] m[i][j] == mx;
            if w < k - 1 {
                assert(sexp_col_sum(m, j, mx, (k - 1) as nat) >= SCALE);
            } else {
                assert(spec_exp_neg(mx - m[k - 1][j]) == SCALE);
            }
        }
    }
}

/// The partial sums of a softmax column, scaled by the column's exponential
/// total, track the partial exponential sums to within one unit per row:
/// the key inequality behind the column-sum law.
pub proof fn lemma_softmax_col_sum_rec(m: Seq<Seq<int>>, j: int, mx: int, total: int, k: nat)
    requires
        m.len() >= 1,
        total >= 1,
        forall|i: int| 0 <= i < m.len() ==> #[trigger] m[i][j] <= mx,
        mx == smax_col(m, j, m.len()),
        total == sexp_col_sum(m, j, mx, m.len()),
        1 <= k <= m.len(),
    ensures
        total * ssoftmax_col_psum(m, j, k) <= SCALE * sexp_col_sum(m, j, mx, k),
        SCALE * sexp_col_sum(m, j, mx, k) < total * (ssoftmax_col_psum(m, j, k) + k),
    decreases k,
{
    let e = spec_exp_neg(mx - m[k - 1][j]);
    lemma_spec_exp_neg_bounds(mx - m[k - 1][j]);
    let q = e * (SCALE as int) / total;
    assert(ssoftmax_entry(m, (k - 1) as int, j) == q);
    vstd::arithmetic::div_mod::lemma_fundamental_div_mod(e * (SCALE as int), total);
    vstd::arithmetic::div_mod::lemma_mod_bound(e * (SCALE as int), total);
    let rem = (e * (SCALE as int)) % total;
    let ps = ssoftmax_col_psum(m, j, (k - 1) as nat);
    let es = sexp_col_sum(m, j, mx, (k - 1) as nat);
    if k == 1 {
        assert(ps == 0 && es == 0);
        assert(total * ps <= SCALE * es && SCALE * es <= total * (ps + (k - 1)))
            by (nonlinear_arith)
            requires
                ps == 0,
                es == 0,
                k == 1,
        ;
    } else {
        lemma_softmax_col_sum_rec(m, j, mx, total, (k - 1) as nat);
    }
    assert(total * (ps + q) <= SCALE * (es + e)) by (nonlinear_arith)
        requires
            total * ps <= SCALE * es,
            e * (SCALE as int) == q * total + rem,
            0 <= rem,
    ;
    assert(SCALE * (es + e) < total * ((ps + q) + k)) by (nonlinear_arith)
        requires
            SCALE * es <= total * (ps + (k - 1)),
            e * (SCALE as int) == q * total + rem,
            rem < total,
    ;
    assert(ssoftmax_col_psum(m, j, k) == ps + q);
    assert(sexp_col_sum(m, j, mx, k) == es + e);
}

/// Sums over a column of `out` agree with the softmax partial sums when
/// the entries do.
pub proof fn lemma_softmax_psum_bridge(out: Seq<Seq<int>>, m: Seq<Seq<int>>, j: int, k: nat)
    requires
        k <= out.len(),
        forall|i: int| 0 <= i < k ==> #[trigger] out[i][j] == ssoftmax_entry(m, i, j),
    ensures
        ssum(scol(out, j), k) == ssoftmax_col_psum(m, j, k),
    decreases k,
{
    if k > 0 {
        lemma_softmax_psum_bridge(out, m, j, (k - 1) as nat);
        assert(scol(out, j)[k - 1] == out[k - 1][j]);
    }
}

/// Column-wise softmax: every entry of column `j` becomes the exponential
/// of its distance to the column maximum, normalised by the column's sum
/// of exponentials.  Subtracting the maximum before exponentiating keeps
/// the arithmetic in range without changing the mathematical result.
///
/// Every output entry lies in `[0, ONE]`, and every output column sums to
/// `ONE` to within one fixed-point unit per row.
pub fn softmax(x: &Matrix) -> (r: Matrix)
    requires
        x.wf(),
        1 <= x.rows,
    ensures
        r.wf(),
        r.rows == x.rows,
        r.cols == x.cols,
        r@ == ssoftmax(x@, x.cols as nat),
        forall|i: int, j: int|
            0 <= i < r.rows && 0 <= j < r.cols ==> 0 <= #[trigger] r@[i][j] <= SCALE,
        forall|j: int|
            0 <= j < r.cols
                ==> SCALE - x.rows < #[trigger] ssum(scol(r@, j), x.rows as nat) <= SCALE,
{
    let rows = x.rows;
    let cols = x.cols;
    let mut mxs: Vec<i64> = Vec::new();
    let mut totals: Vec<i64> = Vec::new();
    let mut j: usize = 0;
    while j < cols
        invariant
            x.wf(),
            1 <= rows,
            rows == x.rows,
            cols == x.cols,
            j <= cols,
            mxs@.len() == j,
            totals@.len() == j,
            forall|j2: int|
                0 <= j2 < j ==> #[trigger] mxs@[j2] as int == smax_col(x@, j2, rows as nat),
            forall|j2: int|
                0 <= j2 < j
                    ==> #[trigger] totals@[j2] as int
                        == sexp_col_sum(x@, j2, smax_col(x@, j2, rows as nat), rows as nat)
                        && SCALE <= totals@[j2] <= VAL_MAX,
        decreases cols - j,
    {
        proof {
            x.lemma_wf_data();
        }
        let mut mx: i64 = x.data[0][j];
        let mut i: usize = 1;
        while i < rows
            invariant
                x.wf(),
                1 <= rows,
                rows == x.rows,
                cols == x.cols,
                j < cols,
                1 <= i <= rows,
                mx as int == smax_col(x@, j as int, i as nat),
                -VAL_MAX <= mx <= VAL_MAX,
            decreases rows - i,
        {
            proof {
                x.lemma_wf_data();
            }
            let v = x.data[i][j];
            if v > mx {
                mx = v;
            }
            i += 1;
        }
        proof {
            lemma_smax_col(x@, j as int, rows as nat);
        }
        let mut total: u64 = 0;
        let mut i: usize = 0;
        while i < rows
            invariant
                x.wf(),
                1 <= rows,
                rows == x.rows,
                cols == x.cols,
                j < cols,
                i <= rows,
                mx as int == smax_col(x@, j as int, rows as nat),
                -VAL_MAX <= mx <= VAL_MAX,
                forall|i2: int| 0 <= i2 < rows ==> #[trigger] x@[i2][j as int] <= mx as int,
                total as int == sexp_col_sum(x@, j as int, mx as int, i as nat),
                total as int <= i as int * SCALE as int,
            decreases rows - i,
        {
            proof {
                x.lemma_wf_data();
                assert(x@[i as int][j as int] <= mx as int);
                assert((i + 1) as int * SCALE as int == i as int * SCALE as int + SCALE as int)
                    by (nonlinear_arith);
                assert(i as int * SCALE as int <= DIM_MAX as int * SCALE as int)
                    by (nonlinear_arith)
                    requires
                        0 <= i as int <= DIM_MAX as int,
                ;
            }
            let v: i64 = x.data[i][j];
            let t: i64 = mx - v;
            let e: i64 = exp_neg(t as u64);
            total = total + (e as u64);
            i += 1;
        }
        proof {
            lemma_sexp_col_sum_bounds(x@, j as int, mx as int, rows as nat);
            assert(total as int >= SCALE as int);
            assert(rows as int * SCALE as int <= DIM_MAX as int * SCALE as int)
                by (nonlinear_arith)
                requires
                    0 <= rows as int <= DIM_MAX as int,
            ;
        }
        mxs.push(mx);
        totals.push(total as i64);
        j += 1;
    }
    let mut out: Vec<Vec<i64>> = Vec::new();
    let mut i: usize = 0;
    while i < rows
        invariant
            x.wf(),
            1 <= rows,
            rows == x.rows,
            cols == x.cols,
            i <= rows,
            mxs@.len() == cols,
            totals@.len() == cols,
            forall|j2: int|
                0 <= j2 < cols ==> #[trigger] mxs@[j2] as int == smax_col(x@, j2, rows as nat),
            forall|j2: int|
                0 <= j2 < cols
                    ==> #[trigger] totals@[j2] as int
                        == sexp_col_sum(x@, j2, smax_col(x@, j2, rows as nat), rows as nat)
                        && SCALE <= totals@[j2] <= VAL_MAX,
            out@.len() == i,
            forall|i2: int| 0 <= i2 < i ==> (#[trigger] out@[i2]@).len() == cols,
            forall|i2: int, j2: int|
                0 <= i2 < i && 0 <= j2 < cols
                    ==> #[trigger] out@[i2]@[j2] as int == ssoftmax_entry(x@, i2, j2)
                        && 0 <= out@[i2]@[j2] <= SCALE,
        decreases rows - i,
    {
        let mut row: Vec<i64> = Vec::new();
        let mut j2: usize = 0;
        while j2 < cols
            invariant
                x.wf(),
                1 <= rows,
                rows == x.rows,
                cols == x.cols,
                i < rows,
                j2 <= cols,
                mxs@.len() == cols,
                totals@.len() == cols,
                forall|j3: int|
                    0 <= j3 < cols ==> #[trigger] mxs@[j3] as int == smax_col(x@, j3, rows as nat),
                forall|j3: int|
                    0 <= j3 < cols
                        ==> #[trigger] totals@[j3] as int
                            == sexp_col_sum(x@, j3, smax_col(x@, j3, rows as nat), rows as nat)
                            && SCALE <= totals@[j3] <= VAL_MAX,
                row@.len() == j2,
                forall|j3: int|
                    0 <= j3 < j2
                        ==> #[trigger] row@[j3] as int == ssoftmax_entry(x@, i as int, j3)
                            && 0 <= row@[j3] <= SCALE,
            decreases cols - j2,
        {
            proof {
                x.lemma_wf_data();
                lemma_smax_col(x@, j2 as int, rows as nat);
            }
            let mx: i64 = mxs[j2];
            let total: i64 = totals[j2];
            let v: i64 = x.data[i][j2];
            let t: i64 = mx - v;
            let e: i64 = exp_neg(t as u64);
            let num: u64 = (e as u64) * (SCALE as u64);
            let q: u64 = num / (total as u64);
            proof {
                assert(q as int <= SCALE as int) by (nonlinear_arith)
                    requires
                        0 <= e as int <= SCALE as int,
                        SCALE as int <= total as int,
                        num as int == e as int * SCALE as int,
                        q as int == num as int / total as int,
                ;
                assert(q as int == ssoftmax_entry(x@, i as int, j2 as int));
            }
            row.push(q as i64);
            j2 += 1;
        }
        out.push(row);
        i += 1;
    }
    let m = Matrix { rows, cols, data: out };
    proof {
        assert(m@ =~~= ssoftmax(x@, cols as nat));
        assert forall|i2: int, j2: int|
            0 <= i2 < m@.len() && 0 <= j2 < m@[i2].len() implies in_range(#[trigger] m@[i2][j2]) by {
            assert(m@[i2][j2] == out@[i2]@[j2] as int);
        }
        assert forall|j2: int|
            0 <= j2 < cols implies
            SCALE - rows < #[trigger] ssum(scol(m@, j2), rows as nat) <= SCALE by {
            lemma_smax_col(x@, j2, rows as nat);
            let mx = smax_col(x@, j2, rows as nat);
            lemma_sexp_col_sum_bounds(x@, j2, mx, rows as nat);
            let total = sexp_col_sum(x@, j2, mx, rows as nat);
            assert(total >= SCALE as int);
            assert forall|i2: int| 0 <= i2 < rows implies
                #[trigger] m@[i2][j2] == ssoftmax_entry(x@, i2, j2) by {
                assert(m@[i2][j2] == out@[i2]@[j2] as int);
            }
            lemma_softmax_psum_bridge(m@, x@, j2, rows as nat);
            lemma_softmax_col_sum_rec(x@, j2, mx, total, rows as nat);
            let psum = ssoftmax_col_psum(x@, j2, rows as nat);
            assert(psum <= SCALE as int) by (nonlinear_arith)
                requires
                    total * psum <= SCALE as int * total,
                    total >= 1,
            ;
            assert(SCALE - rows < psum) by (nonlinear_arith)
                requires
                    SCALE as int * total < total * (psum + rows as int),
                    total >= 1,
            ;
        }
    }
    m
}

/// Rectified linear unit, applied entry by entry: `max(0, x)`.
///
/// The output never has a negative entry.
pub fn relu(input: &Matrix) -> (r: Matrix)
    requires
        input.wf(),
    ensures
        r.wf(),
        r.rows == input.rows,
        r.cols == input.cols,
        r@ == srelu(input@),
        forall|i: int, j: int|
            0 <= i < r.rows && 0 <= j < r.cols ==> 0 <= #[trigger] r@[i][j] <= VAL_MAX,
{
    let mut out: Vec<Vec<i64>> = Vec::new();
    let mut i: usize = 0;
    while i < input.rows
        invariant
            input.wf(),
            i <= input.rows,
            out@.len() == i,
            forall|i2: int| 0 <= i2 < i ==> (#[trigger] out@[i2]@).len() == input.cols,
            forall|i2: int, j2: int|
                0 <= i2 < i && 0 <= j2 < input.cols
                    ==> #[trigger] out@[i2]@[j2] as int == relu_val(input@[i2][j2])
                        && 0 <= out@[i2]@[j2] <= VAL_MAX,
        decreases input.rows - i,
    {
        let mut row: Vec<i64> = Vec::new();
        let mut j: usize = 0;
        while j < input.cols
            invariant
                input.wf(),
                i < input.rows,
                j <= input.cols,
                row@.len() == j,
                forall|j2: int|
                    0 <= j2 < j
                        ==> #[trigger] row@[j2] as int == relu_val(input@[i as int][j2])
                            && 0 <= row@[j2] <= VAL_MAX,
            decreases input.cols - j,
        {
            proof {
                input.lemma_wf_data();
            }
            let x: i64 = input.data[i][j];
            row.push(if x > 0 { x } else { 0 });
            j += 1;
        }
        out.push(row);
        i += 1;
    }
    let m = Matrix { rows: input.rows, cols: input.cols, data: out };
    proof {
        assert(m@ =~~= srelu(input@));
        assert forall|i2: int, j2: int|
            0 <= i2 < m@.len() && 0 <= j2 < m@[i2].len() implies in_range(#[trigger] m@[i2][j2]) by {
            assert(m@[i2][j2] == out@[i2]@[j2] as int);
        }
    }
    m
}

/// Derivative of the rectifier, applied entry by entry: `ONE` where the
/// input is strictly positive, zero elsewhere.
///
/// Every output entry is exactly zero or `ONE`, and `ONE` exactly where
/// the corresponding input was strictly positive.
pub fn deriv_relu(input: &Matrix) -> (r: Matrix)
    requires
        input.wf(),
    ensures
        r.wf(),
        r.rows == input.rows,
        r.cols == input.cols,
        r@ == sderiv(input@),
        forall|i: int, j: int|
            0 <= i < r.rows && 0 <= j < r.cols
                ==> (#[trigger] r@[i][j] == 0 || r@[i][j] == SCALE as int)
                    && (r@[i][j] == SCALE as int <==> input@[i][j] > 0),
{
    let mut out: Vec<Vec<i64>> = Vec::new();
    let mut i: usize = 0;
    while i < input.rows
        invariant
            input.wf(),
            i <= input.rows,
            out@.len() == i,
            forall|i2: int| 0 <= i2 < i ==> (#[trigger] out@[i2]@).len() == input.cols,
            forall|i2: int, j2: int|
                0 <= i2 < i && 0 <= j2 < input.cols
                    ==> #[trigger] out@[i2]@[j2] as int == relu_deriv_val(input@[i2][j2]),
        decreases input.rows - i,
    {
        let mut row: Vec<i64> = Vec::new();
        let mut j: usize = 0;
        while j < input.cols
            invariant
                input.wf(),
                i < input.rows,
                j <= input.cols,
                row@.len() == j,
                forall|j2: int|
                    0 <= j2 < j
                        ==> #[trigger] row@[j2] as int == relu_deriv_val(input@[i as int][j2]),
            decreases input.cols - j,
        {
            proof {
                input.lemma_wf_data();
            }
            let x: i64 = input.data[i][j];
            row.push(if x > 0 { SCALE } else { 0 });
            j += 1;
        }
        out.push(row);
        i += 1;
    }
    let m = Matrix { rows: input.rows, cols: input.cols, data: out };
    proof {
        assert(m@ =~~= sderiv(input@));
        assert forall|i2: int, j2: int|
            0 <= i2 < m@.len() && 0 <= j2 < m@[i2].len() implies in_range(#[trigger] m@[i2][j2]) by {
            assert(m@[i2][j2] == out@[i2]@[j2] as int);
        }
    }
    m
}

/// One-hot encodes a label vector: the result has `NUM_CLASSES` rows and
/// one column per label, with `ONE` at row `y[c]` of column `c` and zero
/// everywhere else.  Fails with `InvalidLabel` exactly when some label is
/// out of range.
pub fn one_hot(y: &Vec<usize>) -> (r: Result<Matrix, Error>)
    requires
        y@.len() <= DIM_MAX,
    ensures
        r is Ok <==> (forall|c: int| 0 <= c < y@.len() ==> #[trigger] y@[c] < NUM_CLASSES),
        r matches Ok(m) ==> {
            &&& m.wf()
            &&& m.rows == NUM_CLASSES
            &&& m.cols == y@.len()
            &&& m@ == sonehot(y@)
            &&& forall|c: int| 0 <= c < y@.len() ==> m@[#[trigger] y@[c] as int][c] == SCALE as int
            &&& forall|rr: int, c: int|
                0 <= rr < NUM_CLASSES && 0 <= c < y@.len() && rr != y@[c] as int
                    ==> #[trigger] m@[rr][c] == 0
        },
        r matches Err(e) ==> e == Error::InvalidLabel,
{
    let n = y.len();
    let mut c0: usize = 0;
    while c0 < n
        invariant
            n == y@.len(),
            c0 <= n,
            forall|c: int| 0 <= c < c0 ==> #[trigger] y@[c] < NUM_CLASSES,
        decreases n - c0,
    {
        if y[c0] >= NUM_CLASSES {
            return Err(Error::InvalidLabel);
        }
        c0 += 1;
    }
    let mut out: Vec<Vec<i64>> = Vec::new();
    let mut r0: usize = 0;
    while r0 < NUM_CLASSES
        invariant
            n == y@.len(),
            n <= DIM_MAX,
            r0 <= NUM_CLASSES,
            out@.len() == r0,
            forall|r2: int| 0 <= r2 < r0 ==> (#[trigger] out@[r2]@).len() == n,
            forall|r2: int, c: int|
                0 <= r2 < r0 && 0 <= c < n
                    ==> #[trigger] out@[r2]@[c] as int
                        == (if y@[c] as int == r2 { SCALE as int } else { 0 }),
        decreases NUM_CLASSES - r0,
    {
        let mut row: Vec<i64> = Vec::new();
        let mut c: usize = 0;
        while c < n
            invariant
                n == y@.len(),
                r0 < NUM_CLASSES,
                c <= n,
                row@.len() == c,
                forall|c2: int|
                    0 <= c2 < c
                        ==> #[trigger] row@[c2] as int
                            == (if y@[c2] as int == r0 as int { SCALE as int } else { 0 }),
            decreases n - c,
        {
            row.push(if y[c] == r0 { SCALE } else { 0 });
            c += 1;
        }
        out.push(row);
        r0 += 1;
    }
    let m = Matrix { rows: NUM_CLASSES, cols: n, data: out };
    proof {
        assert(m@ =~~= sonehot(y@));
        assert forall|i2: int, j2: int|
            0 <= i2 < m@.len() && 0 <= j2 < m@[i2].len() implies in_range(#[trigger] m@[i2][j2]) by {
            assert(m@[i2][j2] == out@[i2]@[j2] as int);
        }
    }
    Ok(m)
}

/// For each column (sample) of an activation matrix, the row index of its
/// largest entry, ties resolved toward the lowest index.
pub fn get_predictions(a2: &Matrix) -> (r: Vec<usize>)
    requires
        a2.wf(),
        1 <= a2.rows,
    ensures
        r@.len() == a2.cols,
        forall|j: int|
            0 <= j < a2.cols
                ==> #[trigger] r@[j] < a2.rows
                    && (forall|i: int|
                        0 <= i < a2.rows
                            ==> #[trigger] a2@[i][j] < a2@[r@[j] as int][j]
                                || (a2@[i][j] == a2@[r@[j] as int][j] && r@[j] <= i)),
{
    let mut out: Vec<usize> = Vec::new();
    let mut j: usize = 0;
    while j < a2.cols
        invariant
            a2.wf(),
            1 <= a2.rows,
            j <= a2.cols,
            out@.len() == j,
            forall|j2: int|
                0 <= j2 < j
                    ==> #[trigger] out@[j2] < a2.rows
                        && (forall|i: int|
                            0 <= i < a2.rows
                                ==> #[trigger] a2@[i][j2] < a2@[out@[j2] as int][j2]
                                    || (a2@[i][j2] == a2@[out@[j2] as int][j2] && out@[j2] <= i)),
        decreases a2.cols - j,
    {
        let mut best: usize = 0;
        let mut i: usize = 1;
        while i < a2.rows
            invariant
                a2.wf(),
                1 <= a2.rows,
                j < a2.cols,
                i <= a2.rows,
                best < i,
                forall|i2: int|
                    0 <= i2 < i
                        ==> #[trigger] a2@[i2][j as int] < a2@[best as int][j as int]
                            || (a2@[i2][j as int] == a2@[best as int][j as int] && best <= i2),
            decreases a2.rows - i,
        {
            proof {
                a2.lemma_wf_data();
            }
            if a2.data[i][j] > a2.data[best][j] {
                best = i;
            }
            i += 1;
        }
        out.push(best);
        j += 1;
    }
    out
}

/// The trainable state of the network: one hidden layer (`w1`, `b1`) and
/// one output layer (`w2`, `b2`).  Biases are column vectors stored as
/// plain vectors, broadcast across the batch.
#[derive(Debug)]
pub struct Parameters {
    pub w1: Matrix,
    pub b1: Vec<i64>,
    pub w2: Matrix,
    pub b2: Vec<i64>,
}

impl Parameters {
    /// The four tensors are well formed and their shapes agree: `w1` is
    /// `h x d`, `b1` has length `h`, `w2` is `NUM_CLASSES x h`, `b2` has
    /// length `NUM_CLASSES`.
    pub open spec fn wf(self) -> bool {
        &&& self.w1.wf()
        &&& self.w2.wf()
        &&& svec_wf(to_ints(self.b1@))
        &&& svec_wf(to_ints(self.b2@))
        &&& self.b1@.len() == self.w1.rows
        &&& self.b2@.len() == self.w2.rows
        &&& self.w2.cols == self.w1.rows
        &&& self.w2.rows == NUM_CLASSES
        &&& 1 <= self.w1.rows
        &&& 1 <= self.w1.cols
    }
}

/// The intermediates of one forward pass, recomputed every iteration and
/// never kept across iterations.
#[derive(Debug)]
pub struct ForwardCache {
    pub z1: Matrix,
    pub a1: Matrix,
    pub z2: Matrix,
    pub a2: Matrix,
}

/// The gradients of one backward pass, matching the shapes of the
/// corresponding `Parameters` fields.
#[derive(Debug)]
pub struct Gradients {
    pub dw1: Matrix,
    pub db1: Vec<i64>,
    pub dw2: Matrix,
    pub db2: Vec<i64>,
}

/// First-layer pre-activation: `W1 . X + b1` (bias broadcast), where `n`
/// is the batch size.
pub open spec fn sforward_z1(w1: Seq<Seq<int>>, b1: Seq<int>, x: Seq<Seq<int>>, n: nat)
    -> Seq<Seq<int>> {
    sadd_bias(smm(w1, x, n, 1), b1)
}

/// First-layer activation: the rectifier of the pre-activation.
pub open spec fn sforward_a1(w1: Seq<Seq<int>>, b1: Seq<int>, x: Seq<Seq<int>>, n: nat)
    -> Seq<Seq<int>> {
    srelu(sforward_z1(w1, b1, x, n))
}

/// Second-layer pre-activation: `W2 . A1 + b2` (bias broadcast).
pub open spec fn sforward_z2(
    w1: Seq<Seq<int>>,
    b1: Seq<int>,
    w2: Seq<Seq<int>>,
    b2: Seq<int>,
    x: Seq<Seq<int>>,
    n: nat,
) -> Seq<Seq<int>> {
    sadd_bias(smm(w2, sforward_a1(w1, b1, x, n), n, 1), b2)
}

/// Output activation: the column-wise softmax of the second-layer
/// pre-activation.
pub open spec fn sforward_a2(
    w1: Seq<Seq<int>>,
    b1: Seq<int>,
    w2: Seq<Seq<int>>,
    b2: Seq<int>,
    x: Seq<Seq<int>>,
    n: nat,
) -> Seq<Seq<int>> {
    ssoftmax(sforward_z2(w1, b1, w2, b2, x, n), n)
}

/// Whether every intermediate of the forward pass stays within the
/// representable entry range.
pub open spec fn sforward_ok(
    w1: Seq<Seq<int>>,
    b1: Seq<int>,
    w2: Seq<Seq<int>>,
    b2: Seq<int>,
    x: Seq<Seq<int>>,
    n: nat,
) -> bool {
    &&& all_in_range(smm(w1, x, n, 1))
    &&& all_in_range(sforward_z1(w1, b1, x, n))
    &&& all_in_range(smm(w2, sforward_a1(w1, b1, x, n), n, 1))
    &&& all_in_range(sforward_z2(w1, b1, w2, b2, x, n))
}

/// One forward pass: `Z1 = W1.X + b1`, `A1 = relu(Z1)`,
/// `Z2 = W2.A1 + b2`, `A2 = softmax(Z2)`.
///
/// Fails with `ShapeMismatch` exactly when the row count of `x` differs
/// from the column count of `w1`, and with `NumericDegeneracy` exactly
/// when some intermediate entry leaves the representable range.
pub fn forward_prop(
    w1: &Matrix,
    b1: &Vec<i64>,
    w2: &Matrix,
    b2: &Vec<i64>,
    inp: &Matrix,
) -> (r: Result<ForwardCache, Error>)
    requires
        w1.wf(),
        w2.wf(),
        svec_wf(to_ints(b1@)),
        svec_wf(to_ints(b2@)),
        b1@.len() == w1.rows,
        b2@.len() == w2.rows,
        w2.cols == w1.rows,
        1 <= w1.rows,
        1 <= w2.rows,
        inp.wf(),
    ensures
        inp.rows != w1.cols ==> r == Err::<ForwardCache, Error>(Error::ShapeMismatch),
        inp.rows == w1.cols ==> (r is Ok
            <==> sforward_ok(w1@, to_ints(b1@), w2@, to_ints(b2@), inp@, inp.cols as nat)),
        inp.rows == w1.cols
            && !sforward_ok(w1@, to_ints(b1@), w2@, to_ints(b2@), inp@, inp.cols as nat)
            ==> r == Err::<ForwardCache, Error>(Error::NumericDegeneracy),
        r matches Ok(c) ==> {
            &&& c.z1.wf() && c.a1.wf() && c.z2.wf() && c.a2.wf()
            &&& c.z1.rows == w1.rows && c.z1.cols == inp.cols
            &&& c.a1.rows == w1.rows && c.a1.cols == inp.cols
            &&& c.z2.rows == w2.rows && c.z2.cols == inp.cols
            &&& c.a2.rows == w2.rows && c.a2.cols == inp.cols
            &&& c.z1@ == sforward_z1(w1@, to_ints(b1@), inp@, inp.cols as nat)
            &&& c.a1@ == sforward_a1(w1@, to_ints(b1@), inp@, inp.cols as nat)
            &&& c.z2@ == sforward_z2(w1@, to_ints(b1@), w2@, to_ints(b2@), inp@, inp.cols as nat)
            &&& c.a2@ == sforward_a2(w1@, to_ints(b1@), w2@, to_ints(b2@), inp@, inp.cols as nat)
        },
{
    if inp.rows != w1.cols {
        return Err(Error::ShapeMismatch);
    }
    let z1_raw = match mat_mul_div(w1, inp, 1) {
        Ok(m) => m,
        Err(e) => {
            return Err(e);
        },
    };
    let z1 = match add_bias(&z1_raw, b1) {
        Ok(m) => m,
        Err(e) => {
            return Err(e);
        },
    };
    let a1 = relu(&z1);
    let z2_raw = match mat_mul_div(w2, &a1, 1) {
        Ok(m) => m,
        Err(e) => {
            return Err(e);
        },
    };
    let z2 = match add_bias(&z2_raw, b2) {
        Ok(m) => m,
        Err(e) => {
            return Err(e);
        },
    };
    let a2 = softmax(&z2);
    Ok(ForwardCache { z1, a1, z2, a2 })
}

/// The analytic gradients of softmax-cross-entropy loss through the
/// rectified hidden layer, as (dW1, db1, dW2, db2):
/// `dZ2 = A2 - onehot(y)`, `dW2 = dZ2 . A1^t / m`, `db2 = rowsum(dZ2) / m`,
/// `dZ1 = (W2^t . dZ2) * relu'(Z1)`, `dW1 = dZ1 . X^t / m`,
/// `db1 = rowsum(dZ1) / m`, with `m` the batch size `len(y)`.
pub open spec fn sgrad(
    z1: Seq<Seq<int>>,
    a1: Seq<Seq<int>>,
    a2: Seq<Seq<int>>,
    w2: Seq<Seq<int>>,
    x: Seq<Seq<int>>,
    y: Seq<usize>,
) -> (Seq<Seq<int>>, Seq<int>, Seq<Seq<int>>, Seq<int>) {
    let n = y.len();
    let m = n as int;
    let h = a1.len();
    let dz2 = ssub(a2, sonehot(y));
    let dw2 = smm(dz2, stranspose(a1, n), h, m);
    let db2 = srow_mean(dz2, n, m);
    let t1 = smm(stranspose(w2, h), dz2, n, 1);
    let dz1 = semul(t1, sderiv(z1));
    let dw1 = smm(dz1, stranspose(x, n), x.len(), m);
    let db1 = srow_mean(dz1, n, m);
    (dw1, db1, dw2, db2)
}

/// Whether every intermediate of the backward pass stays within the
/// representable entry range.
pub open spec fn sgrad_ok(
    z1: Seq<Seq<int>>,
    a1: Seq<Seq<int>>,
    a2: Seq<Seq<int>>,
    w2: Seq<Seq<int>>,
    x: Seq<Seq<int>>,
    y: Seq<usize>,
) -> bool {
    let n = y.len();
    let m = n as int;
    let h = a1.len();
    let dz2 = ssub(a2, sonehot(y));
    let t1 = smm(stranspose(w2, h), dz2, n, 1);
    let dz1 = semul(t1, sderiv(z1));
    &&& all_in_range(dz2)
    &&& all_in_range(smm(dz2, stranspose(a1, n), h, m))
    &&& all_in_range(t1)
    &&& all_in_range(dz1)
    &&& all_in_range(smm(dz1, stranspose(x, n), x.len(), m))
}

/// Whether every label is a valid class index.
pub open spec fn labels_ok(y: Seq<usize>) -> bool {
    forall|c: int| 0 <= c < y.len() ==> #[trigger] y[c] < NUM_CLASSES
}

/// One backward pass over the whole batch, deriving the one-hot encoding
/// of `y` and the four gradients of `sgrad`.
///
/// Fails with `InvalidLabel` exactly when some label is out of range, and
/// otherwise with `NumericDegeneracy` exactly when some intermediate
/// leaves the representable range.
pub fn back_prop(
    z1: &Matrix,
    a1: &Matrix,
    a2: &Matrix,
    w2: &Matrix,
    x: &Matrix,
    y: &Vec<usize>,
) -> (r: Result<Gradients, Error>)
    requires
        z1.wf(),
        a1.wf(),
        a2.wf(),
        w2.wf(),
        x.wf(),
        y@.len() == x.cols,
        z1.cols == x.cols,
        a1.cols == x.cols,
        a2.cols == x.cols,
        a2.rows == NUM_CLASSES,
        w2.rows == NUM_CLASSES,
        z1.rows == a1.rows,
        w2.cols == a1.rows,
        1 <= x.cols,
    ensures
        !labels_ok(y@) ==> r == Err::<Gradients, Error>(Error::InvalidLabel),
        labels_ok(y@) ==> (r is Ok <==> sgrad_ok(z1@, a1@, a2@, w2@, x@, y@)),
        labels_ok(y@) && !sgrad_ok(z1@, a1@, a2@, w2@, x@, y@)
            ==> r == Err::<Gradients, Error>(Error::NumericDegeneracy),
        r matches Ok(g) ==> {
            &&& g.dw1.wf() && g.dw2.wf()
            &&& svec_wf(to_ints(g.db1@)) && svec_wf(to_ints(g.db2@))
            &&& g.dw1.rows == a1.rows && g.dw1.cols == x.rows
            &&& g.db1@.len() == a1.rows
            &&& g.dw2.rows == NUM_CLASSES && g.dw2.cols == a1.rows
            &&& g.db2@.len() == NUM_CLASSES
            &&& g.dw1@ == sgrad(z1@, a1@, a2@, w2@, x@, y@).0
            &&& to_ints(g.db1@) == sgrad(z1@, a1@, a2@, w2@, x@, y@).1
            &&& g.dw2@ == sgrad(z1@, a1@, a2@, w2@, x@, y@).2
            &&& to_ints(g.db2@) == sgrad(z1@, a1@, a2@, w2@, x@, y@).3
        },
{
    let oh = match one_hot(y) {
        Ok(m) => m,
        Err(e) => {
            return Err(e);
        },
    };
    let dz2 = match mat_sub(a2, &oh) {
        Ok(m) => m,
        Err(e) => {
            return Err(e);
        },
    };
    let a1t = a1.transpose();
    let mcount: i64 = x.cols as i64;
    let dw2 = match mat_mul_div(&dz2, &a1t, mcount) {
        Ok(m) => m,
        Err(e) => {
            return Err(e);
        },
    };
    let db2 = row_mean(&dz2, mcount);
    let w2t = w2.transpose();
    let t1 = match mat_mul_div(&w2t, &dz2, 1) {
        Ok(m) => m,
        Err(e) => {
            return Err(e);
        },
    };
    let dr = deriv_relu(z1);
    let dz1 = match elem_mul(&t1, &dr) {
        Ok(m) => m,
        Err(e) => {
            return Err(e);
        },
    };
    let xt = x.transpose();
    let dw1 = match mat_mul_div(&dz1, &xt, mcount) {
        Ok(m) => m,
        Err(e) => {
            return Err(e);
        },
    };
    let db1 = row_mean(&dz1, mcount);
    Ok(Gradients { dw1, db1, dw2, db2 })
}

/// The matrix `w` after one gradient-descent step: each entry moves by
/// `alpha` times the matching gradient entry, in fixed point.
pub open spec fn supdate_m(w: Seq<Seq<int>>, g: Seq<Seq<int>>, alpha: int) -> Seq<Seq<int>> {
    Seq::new(w.len(), |i: int| Seq::new(w[i].len(), |j: int| w[i][j] - fixmul(alpha, g[i][j])))
}

/// The vector `b` after one gradient-descent step.
pub open spec fn supdate_v(b: Seq<int>, g: Seq<int>, alpha: int) -> Seq<int> {
    Seq::new(b.len(), |i: int| b[i] - fixmul(alpha, g[i]))
}

/// Every entry of the vector is within the representable range.
pub open spec fn svec_in_range(v: Seq<int>) -> bool {
    forall|i: int| 0 <= i < v.len() ==> in_range(#[trigger] v[i])
}

/// `w - alpha * g`, entry by entry; succeeds exactly when every updated
/// entry is representable.
fn updated_matrix(w: &Matrix, g: &Matrix, alpha: i64) -> (r: Result<Matrix, Error>)
    requires
        w.wf(),
        g.wf(),
        w.rows == g.rows,
        w.cols == g.cols,
        1 <= alpha <= VAL_MAX,
    ensures
        r is Ok <==> all_in_range(supdate_m(w@, g@, alpha as int)),
        r matches Ok(m) ==> {
            &&& m.wf()
            &&& m.rows == w.rows
            &&& m.cols == w.cols
            &&& m@ == supdate_m(w@, g@, alpha as int)
        },
        r matches Err(e) ==> e == Error::NumericDegeneracy,
{
    let mut out: Vec<Vec<i64>> = Vec::new();
    let mut i: usize = 0;
    while i < w.rows
        invariant
            w.wf(),
            g.wf(),
            w.rows == g.rows,
            w.cols == g.cols,
            1 <= alpha <= VAL_MAX,
            i <= w.rows,
            out@.len() == i,
            forall|i2: int| 0 <= i2 < i ==> (#[trigger] out@[i2]@).len() == w.cols,
            forall|i2: int, j2: int|
                0 <= i2 < i && 0 <= j2 < w.cols
                    ==> #[trigger] out@[i2]@[j2] as int
                        == w@[i2][j2] - fixmul(alpha as int, g@[i2][j2])
                        && in_range(out@[i2]@[j2] as int),
        decreases w.rows - i,
    {
        let mut row: Vec<i64> = Vec::new();
        let mut j: usize = 0;
        while j < w.cols
            invariant
                w.wf(),
                g.wf(),
                w.rows == g.rows,
                w.cols == g.cols,
                1 <= alpha <= VAL_MAX,
                i < w.rows,
                j <= w.cols,
                row@.len() == j,
                forall|j2: int|
                    0 <= j2 < j
                        ==> #[trigger] row@[j2] as int
                            == w@[i as int][j2] - fixmul(alpha as int, g@[i as int][j2])
                            && in_range(row@[j2] as int),
            decreases w.cols - j,
        {
            proof {
                w.lemma_wf_data();
                g.lemma_wf_data();
            }
            let wv: i64 = w.data[i][j];
            let gv: i64 = g.data[i][j];
            proof {
                assert(-(VAL_MAX as int) * (VAL_MAX as int) <= (alpha as int) * (gv as int)
                    <= (VAL_MAX as int) * (VAL_MAX as int)) by (nonlinear_arith)
                    requires
                        1 <= alpha as int <= VAL_MAX as int,
                        -VAL_MAX <= gv as int <= VAL_MAX,
                ;
            }
            let p: i128 = (alpha as i128) * (gv as i128);
            let step: i128 = quot_toward_zero(p, SCALE as i128);
            let nv: i128 = (wv as i128) - step;
            if nv < -(VAL_MAX as i128) || nv > VAL_MAX as i128 {
                proof {
                    assert(supdate_m(w@, g@, alpha as int)[i as int][j as int]
                        == w@[i as int][j as int] - fixmul(alpha as int, g@[i as int][j as int]));
                    assert(!in_range(supdate_m(w@, g@, alpha as int)[i as int][j as int]));
                }
                return Err(Error::NumericDegeneracy);
            }
            row.push(nv as i64);
            j += 1;
        }
        out.push(row);
        i += 1;
    }
    let m = Matrix { rows: w.rows, cols: w.cols, data: out };
    proof {
        assert(m@ =~~= supdate_m(w@, g@, alpha as int));
        assert forall|i2: int, j2: int|
            0 <= i2 < m@.len() && 0 <= j2 < m@[i2].len() implies in_range(#[trigger] m@[i2][j2]) by {
            assert(m@[i2][j2] == out@[i2]@[j2] as int);
        }
    }
    Ok(m)
}

/// `b - alpha * g`, entry by entry; succeeds exactly when every updated
/// entry is representable.
fn updated_vec(b: &Vec<i64>, g: &Vec<i64>, alpha: i64) -> (r: Result<Vec<i64>, Error>)
    requires
        svec_wf(to_ints(b@)),
        svec_wf(to_ints(g@)),
        b@.len() == g@.len(),
        1 <= alpha <= VAL_MAX,
    ensures
        r is Ok <==> svec_in_range(supdate_v(to_ints(b@), to_ints(g@), alpha as int)),
        r matches Ok(v) ==> {
            &&& svec_wf(to_ints(v@))
            &&& v@.len() == b@.len()
            &&& to_ints(v@) == supdate_v(to_ints(b@), to_ints(g@), alpha as int)
        },
        r matches Err(e) ==> e == Error::NumericDegeneracy,
{
    let mut out: Vec<i64> = Vec::new();
    let mut i: usize = 0;
    while i < b.len()
        invariant
            svec_wf(to_ints(b@)),
            svec_wf(to_ints(g@)),
            b@.len() == g@.len(),
            1 <= alpha <= VAL_MAX,
            i <= b@.len(),
            out@.len() == i,
            forall|i2: int|
                0 <= i2 < i
                    ==> #[trigger] out@[i2] as int
                        == b@[i2] as int - fixmul(alpha as int, g@[i2] as int)
                        && in_range(out@[i2] as int),
        decreases b@.len() - i,
    {
        proof {
            assert(in_range(to_ints(b@)[i as int]));
            assert(in_range(to_ints(g@)[i as int]));
        }
        let bv: i64 = b[i];
        let gv: i64 = g[i];
        proof {
            assert(-(VAL_MAX as int) * (VAL_MAX as int) <= (alpha as int) * (gv as int)
                <= (VAL_MAX as int) * (VAL_MAX as int)) by (nonlinear_arith)
                requires
                    1 <= alpha as int <= VAL_MAX as int,
                    -VAL_MAX <= gv as int <= VAL_MAX,
            ;
        }
        let p: i128 = (alpha as i128) * (gv as i128);
        let step: i128 = quot_toward_zero(p, SCALE as i128);
        let nv: i128 = (bv as i128) - step;
        if nv < -(VAL_MAX as i128) || nv > VAL_MAX as i128 {
            proof {
                assert(supdate_v(to_ints(b@), to_ints(g@), alpha as int)[i as int]
                    == b@[i as int] as int - fixmul(alpha as int, g@[i as int] as int));
                assert(!in_range(supdate_v(to_ints(b@), to_ints(g@), alpha as int)[i as int]));
            }
            return Err(Error::NumericDegeneracy);
        }
        out.push(nv as i64);
        i += 1;
    }
    proof {
        assert(to_ints(out@) =~= supdate_v(to_ints(b@), to_ints(g@), alpha as int));
    }
    Ok(out)
}

/// One gradient-descent step, applied in place: `W <- W - alpha * dW` and
/// `b <- b - alpha * db` for both layers.
///
/// Succeeds exactly when every updated entry stays representable; on any
/// failure the parameters are left unchanged.
pub fn update_params(
    w1: &mut Matrix,
    b1: &mut Vec<i64>,
    w2: &mut Matrix,
    b2: &mut Vec<i64>,
    dw1: &Matrix,
    db1: &Vec<i64>,
    dw2: &Matrix,
    db2: &Vec<i64>,
    alpha: i64,
) -> (r: Result<(), Error>)
    requires
        old(w1).wf(),
        old(w2).wf(),
        svec_wf(to_ints(old(b1)@)),
        svec_wf(to_ints(old(b2)@)),
        dw1.wf(),
        dw2.wf(),
        svec_wf(to_ints(db1@)),
        svec_wf(to_ints(db2@)),
        old(w1).rows == dw1.rows && old(w1).cols == dw1.cols,
        old(w2).rows == dw2.rows && old(w2).cols == dw2.cols,
        old(b1)@.len() == db1@.len(),
        old(b2)@.len() == db2@.len(),
        1 <= alpha <= VAL_MAX,
    ensures
        r is Ok <==> {
            &&& all_in_range(supdate_m(old(w1)@, dw1@, alpha as int))
            &&& svec_in_range(supdate_v(to_ints(old(b1)@), to_ints(db1@), alpha as int))
            &&& all_in_range(supdate_m(old(w2)@, dw2@, alpha as int))
            &&& svec_in_range(supdate_v(to_ints(old(b2)@), to_ints(db2@), alpha as int))
        },
        r is Ok ==> {
            &&& final(w1).wf() && final(w2).wf()
            &&& svec_wf(to_ints(final(b1)@)) && svec_wf(to_ints(final(b2)@))
            &&& final(w1).rows == old(w1).rows && final(w1).cols == old(w1).cols
            &&& final(w2).rows == old(w2).rows && final(w2).cols == old(w2).cols
            &&& final(b1)@.len() == old(b1)@.len() && final(b2)@.len() == old(b2)@.len()
            &&& final(w1)@ == supdate_m(old(w1)@, dw1@, alpha as int)
            &&& to_ints(final(b1)@) == supdate_v(to_ints(old(b1)@), to_ints(db1@), alpha as int)
            &&& final(w2)@ == supdate_m(old(w2)@, dw2@, alpha as int)
            &&& to_ints(final(b2)@) == supdate_v(to_ints(old(b2)@), to_ints(db2@), alpha as int)
        },
        r matches Err(e) ==> {
            &&& e == Error::NumericDegeneracy
            &&& *final(w1) == *old(w1) && *final(b1) == *old(b1) && *final(w2) == *old(w2)
                && *final(b2) == *old(b2)
        },
{
    let nw1 = match updated_matrix(w1, dw1, alpha) {
        Ok(m) => m,
        Err(e) => {
            return Err(e);
        },
    };
    let nb1 = match updated_vec(b1, db1, alpha) {
        Ok(v) => v,
        Err(e) => {
            return Err(e);
        },
    };
    let nw2 = match updated_matrix(w2, dw2, alpha) {
        Ok(m) => m,
        Err(e) => {
            return Err(e);
        },
    };
    let nb2 = match updated_vec(b2, db2, alpha) {
        Ok(v) => v,
        Err(e) => {
            return Err(e);
        },
    };
    *w1 = nw1;
    *b1 = nb1;
    *w2 = nw2;
    *b2 = nb2;
    Ok(())
}

/// The fraction of positions where `predictions` and `y` agree, as a
/// fixed-point value in `[0, ONE]`.  Fails with `ShapeMismatch` when the
/// lengths differ, and with `NumericDegeneracy` on empty vectors, whose
/// accuracy is not defined.
pub fn get_accuracy(predictions: &Vec<usize>, y: &Vec<usize>) -> (r: Result<i64, Error>)
    requires
        y@.len() <= DIM_MAX,
    ensures
        r is Ok <==> predictions@.len() == y@.len() && y@.len() >= 1,
        r matches Ok(a) ==> {
            &&& a as int == fixdiv(count_eq(predictions@, y@, y@.len()) * SCALE, y@.len() as int)
            &&& 0 <= a <= SCALE
        },
        predictions@.len() != y@.len() ==> r == Err::<i64, Error>(Error::ShapeMismatch),
        predictions@.len() == y@.len() && y@.len() == 0
            ==> r == Err::<i64, Error>(Error::NumericDegeneracy),
{
    let n = y.len();
    if predictions.len() != n {
        return Err(Error::ShapeMismatch);
    }
    if n == 0 {
        return Err(Error::NumericDegeneracy);
    }
    let mut correct: u64 = 0;
    let mut k: usize = 0;
    while k < n
        invariant
            n == y@.len(),
            n == predictions@.len(),
            n <= DIM_MAX,
            k <= n,
            correct as int == count_eq(predictions@, y@, k as nat),
            correct <= k as u64,
        decreases n - k,
    {
        proof {
            lemma_count_eq_bounds(predictions@, y@, (k + 1) as nat);
        }
        if predictions[k] == y[k] {
            correct += 1;
        }
        k += 1;
    }
    proof {
        lemma_count_eq_bounds(predictions@, y@, n as nat);
    }
    let num: u64 = correct * (SCALE as u64);
    let a: u64 = num / (n as u64);
    proof {
        assert(a as int <= SCALE as int) by (nonlinear_arith)
            requires
                correct as int <= n as int,
                1 <= n as int,
                num as int == correct as int * SCALE as int,
                a as int == num as int / n as int,
        ;
        assert(a as int == fixdiv(count_eq(predictions@, y@, y@.len()) * SCALE, y@.len() as int));
    }
    Ok(a as i64)
}

/// Whether every entry updated by one gradient-descent step stays within
/// the representable range, for all four tensors.
pub open spec fn supdate_ok(
    w1: Seq<Seq<int>>,
    b1: Seq<int>,
    w2: Seq<Seq<int>>,
    b2: Seq<int>,
    dw1: Seq<Seq<int>>,
    db1: Seq<int>,
    dw2: Seq<Seq<int>>,
    db2: Seq<int>,
    alpha: int,
) -> bool {
    &&& all_in_range(supdate_m(w1, dw1, alpha))
    &&& svec_in_range(supdate_v(b1, db1, alpha))
    &&& all_in_range(supdate_m(w2, dw2, alpha))
    &&& svec_in_range(supdate_v(b2, db2, alpha))
}

/// One training iteration over the whole batch, at the specification
/// level: forward pass, backward pass, and the parameter update, or `None`
/// where some intermediate leaves the representable range.
pub open spec fn sstep(
    w1: Seq<Seq<int>>,
    b1: Seq<int>,
    w2: Seq<Seq<int>>,
    b2: Seq<int>,
    x: Seq<Seq<int>>,
    y: Seq<usize>,
    alpha: int,
) -> Option<(Seq<Seq<int>>, Seq<int>, Seq<Seq<int>>, Seq<int>)> {
    let n = y.len();
    if !sforward_ok(w1, b1, w2, b2, x, n) {
        Option::None
    } else {
        let z1 = sforward_z1(w1, b1, x, n);
        let a1 = sforward_a1(w1, b1, x, n);
        let a2 = sforward_a2(w1, b1, w2, b2, x, n);
        if !sgrad_ok(z1, a1, a2, w2, x, y) {
            Option::None
        } else {
            let g = sgrad(z1, a1, a2, w2, x, y);
            if !supdate_ok(w1, b1, w2, b2, g.0, g.1, g.2, g.3, alpha) {
                Option::None
            } else {
                Option::Some(
                    (
                        supdate_m(w1, g.0, alpha),
                        supdate_v(b1, g.1, alpha),
                        supdate_m(w2, g.2, alpha),
                        supdate_v(b2, g.3, alpha),
                    ),
                )
            }
        }
    }
}

/// `iters` training iterations from a given parameter state, at the
/// specification level: the whole trajectory is a function of the starting
/// state and the training inputs alone.
pub open spec fn strain(
    w1: Seq<Seq<int>>,
    b1: Seq<int>,
    w2: Seq<Seq<int>>,
    b2: Seq<int>,
    x: Seq<Seq<int>>,
    y: Seq<usize>,
    alpha: int,
    iters: nat,
) -> Option<(Seq<Seq<int>>, Seq<int>, Seq<Seq<int>>, Seq<int>)>
    decreases iters,
{
    if iters == 0 {
        Option::Some((w1, b1, w2, b2))
    } else {
        match strain(w1, b1, w2, b2, x, y, alpha, (iters - 1) as nat) {
            Option::None => Option::None,
            Option::Some(s) => sstep(s.0, s.1, s.2, s.3, x, y, alpha),
        }
    }
}

/// Once one iteration fails, every longer training run fails too.
pub proof fn lemma_strain_stuck(
    w1: Seq<Seq<int>>,
    b1: Seq<int>,
    w2: Seq<Seq<int>>,
    b2: Seq<int>,
    x: Seq<Seq<int>>,
    y: Seq<usize>,
    alpha: int,
    s: (Seq<Seq<int>>, Seq<int>, Seq<Seq<int>>, Seq<int>),
    k: nat,
    kk: nat,
)
    requires
        k < kk,
        strain(w1, b1, w2, b2, x, y, alpha, k) == Option::Some(s),
        sstep(s.0, s.1, s.2, s.3, x, y, alpha) is None,
    ensures
        strain(w1, b1, w2, b2, x, y, alpha, kk) is None,
    decreases kk,
{
    if kk == k + 1 {
    } else {
        lemma_strain_stuck(w1, b1, w2, b2, x, y, alpha, s, k, (kk - 1) as nat);
    }
}

/// Trains a freshly initialised network for a fixed number of iterations
/// of full-batch gradient descent, returning the final parameters and, for
/// observability only, the accuracy sampled every `log_every` iterations
/// (`0` disables sampling).
///
/// Each sampled accuracy is computed from the forward pass of its own
/// iteration, before that iteration's update is applied, so it lags the
/// post-update accuracy by one iteration; callers must not depend on it.
///
/// The result is pinned to `strain` over the seed-determined initial
/// parameters: two calls with the same seed, inputs and hyper-parameters
/// return identical parameters.
pub fn gradient_descent(
    x: &Matrix,
    y: &Vec<usize>,
    iterations: u32,
    alpha: i64,
    hidden: usize,
    seed: u64,
    log_every: u32,
) -> (r: Result<(Parameters, Vec<(u32, i64)>), Error>)
    requires
        x.wf(),
        1 <= x.rows,
        1 <= x.cols,
        1 <= hidden <= DIM_MAX,
        1 <= alpha <= VAL_MAX,
        hidden * x.rows + hidden + NUM_CLASSES * hidden + NUM_CLASSES <= usize::MAX,
    ensures
        y@.len() != x.cols ==> r == Err::<(Parameters, Vec<(u32, i64)>), Error>(
            Error::ShapeMismatch,
        ),
        y@.len() == x.cols && !labels_ok(y@) ==> r == Err::<(Parameters, Vec<(u32, i64)>), Error>(
            Error::InvalidLabel,
        ),
        y@.len() == x.cols && labels_ok(y@) ==> ({
            let i0 = crate::rng::sinit(seed, x.rows as nat, hidden as nat);
            let res = strain(i0.0, i0.1, i0.2, i0.3, x@, y@, alpha as int, iterations as nat);
            &&& (r is Ok <==> res is Some)
            &&& (r matches Ok(t) ==> {
                &&& t.0.wf()
                &&& t.0.w1.rows == hidden && t.0.w1.cols == x.rows
                &&& t.0.w2.rows == NUM_CLASSES && t.0.w2.cols == hidden
                &&& res == Option::Some(
                    (t.0.w1@, to_ints(t.0.b1@), t.0.w2@, to_ints(t.0.b2@)),
                )
                &&& forall|k: int|
                    0 <= k < t.1@.len()
                        ==> 0 <= (#[trigger] t.1@[k]).1 <= SCALE && (t.1@[k]).0 < iterations
            })
            &&& (r matches Err(e) ==> e == Error::NumericDegeneracy)
        }),
{
    if y.len() != x.cols {
        return Err(Error::ShapeMismatch);
    }
    let mut c: usize = 0;
    while c < y.len()
        invariant
            c <= y@.len(),
            y@.len() == x.cols,
            forall|c2: int| 0 <= c2 < c ==> #[trigger] y@[c2] < NUM_CLASSES,
        decreases y@.len() - c,
    {
        if y[c] >= NUM_CLASSES {
            return Err(Error::InvalidLabel);
        }
        c += 1;
    }
    assert(labels_ok(y@));
    let p0 = crate::rng::init_variables(seed, x.rows, hidden);
    let mut w1 = p0.w1;
    let mut b1 = p0.b1;
    let mut w2 = p0.w2;
    let mut b2 = p0.b2;
    let mut log: Vec<(u32, i64)> = Vec::new();
    let mut it: u32 = 0;
    while it < iterations
        invariant
            x.wf(),
            1 <= x.rows,
            1 <= x.cols,
            y@.len() == x.cols,
            labels_ok(y@),
            1 <= alpha <= VAL_MAX,
            1 <= hidden <= DIM_MAX,
            w1.wf(),
            w2.wf(),
            svec_wf(to_ints(b1@)),
            svec_wf(to_ints(b2@)),
            w1.rows == hidden,
            w1.cols == x.rows,
            b1@.len() == hidden,
            w2.rows == NUM_CLASSES,
            w2.cols == hidden,
            b2@.len() == NUM_CLASSES,
            it <= iterations,
            strain(
                crate::rng::sinit(seed, x.rows as nat, hidden as nat).0,
                crate::rng::sinit(seed, x.rows as nat, hidden as nat).1,
                crate::rng::sinit(seed, x.rows as nat, hidden as nat).2,
                crate::rng::sinit(seed, x.rows as nat, hidden as nat).3,
                x@,
                y@,
                alpha as int,
                it as nat,
            ) == Option::Some((w1@, to_ints(b1@), w2@, to_ints(b2@))),
            forall|k: int|
                0 <= k < log@.len()
                    ==> 0 <= (#[trigger] log@[k]).1 <= SCALE && (log@[k]).0 < iterations,
        decreases iterations - it,
    {
        let ghost i0 = crate::rng::sinit(seed, x.rows as nat, hidden as nat);
        let ghost cur = (w1@, to_ints(b1@), w2@, to_ints(b2@));
        let cache = match forward_prop(&w1, &b1, &w2, &b2, x) {
            Ok(cc) => cc,
            Err(e) => {
                proof {
                    lemma_strain_stuck(
                        i0.0, i0.1, i0.2, i0.3, x@, y@, alpha as int, cur, it as nat,
                        iterations as nat,
                    );
                }
                return Err(e);
            },
        };
        if log_every > 0 && it % log_every == 0 {
            let preds = get_predictions(&cache.a2);
            let acc = match get_accuracy(&preds, y) {
                Ok(a) => a,
                Err(e) => {
                    proof {
                        assert(false);
                    }
                    return Err(e);
                },
            };
            log.push((it, acc));
        }
        let g = match back_prop(&cache.z1, &cache.a1, &cache.a2, &w2, x, y) {
            Ok(gg) => gg,
            Err(e) => {
                proof {
                    lemma_strain_stuck(
                        i0.0, i0.1, i0.2, i0.3, x@, y@, alpha as int, cur, it as nat,
                        iterations as nat,
                    );
                }
                return Err(e);
            },
        };
        match update_params(&mut w1, &mut b1, &mut w2, &mut b2, &g.dw1, &g.db1, &g.dw2, &g.db2,
            alpha) {
            Ok(u) => u,
            Err(e) => {
                proof {
                    lemma_strain_stuck(
                        i0.0, i0.1, i0.2, i0.3, x@, y@, alpha as int, cur, it as nat,
                        iterations as nat,
                    );
                }
                return Err(e);
            },
        };
        proof {
            assert(sstep(cur.0, cur.1, cur.2, cur.3, x@, y@, alpha as int)
                == Option::Some((w1@, to_ints(b1@), w2@, to_ints(b2@))));
            assert(strain(i0.0, i0.1, i0.2, i0.3, x@, y@, alpha as int, (it + 1) as nat)
                == Option::Some((w1@, to_ints(b1@), w2@, to_ints(b2@))));
        }
        it = it + 1;
    }
    Ok((Parameters { w1, b1, w2, b2 }, log))
}

/// Class predictions of the network on a fresh batch: one forward pass,
/// then the column-wise index of the largest output activation.
pub fn make_predictions(
    w1: &Matrix,
    b1: &Vec<i64>,
    w2: &Matrix,
    b2: &Vec<i64>,
    x: &Matrix,
) -> (r: Result<Vec<usize>, Error>)
    requires
        w1.wf(),
        w2.wf(),
        svec_wf(to_ints(b1@)),
        svec_wf(to_ints(b2@)),
        b1@.len() == w1.rows,
        b2@.len() == w2.rows,
        w2.cols == w1.rows,
        1 <= w1.rows,
        1 <= w2.rows,
        x.wf(),
    ensures
        x.rows != w1.cols ==> r == Err::<Vec<usize>, Error>(Error::ShapeMismatch),
        x.rows == w1.cols ==> (r is Ok
            <==> sforward_ok(w1@, to_ints(b1@), w2@, to_ints(b2@), x@, x.cols as nat)),
        x.rows == w1.cols
            && !sforward_ok(w1@, to_ints(b1@), w2@, to_ints(b2@), x@, x.cols as nat)
            ==> r == Err::<Vec<usize>, Error>(Error::NumericDegeneracy),
        r matches Ok(p) ==> ({
            let a2 = sforward_a2(w1@, to_ints(b1@), w2@, to_ints(b2@), x@, x.cols as nat);
            &&& p@.len() == x.cols
            &&& forall|j: int|
                0 <= j < x.cols
                    ==> #[trigger] p@[j] < w2.rows
                        && (forall|i: int|
                            0 <= i < w2.rows
                                ==> #[trigger] a2[i][j] < a2[p@[j] as int][j]
                                    || (a2[i][j] == a2[p@[j] as int][j] && p@[j] <= i))
        }),
{
    let cache = match forward_prop(w1, b1, w2, b2, x) {
        Ok(c) => c,
        Err(e) => {
            return Err(e);
        },
    };
    let predictions = get_predictions(&cache.a2);
    Ok(predictions)
}

} // verus!
