//! Dense fixed-point matrices and the linear-algebra operations the
//! network needs.
//!
//! A `Matrix` stores its entries row-major as `Vec<Vec<i64>>`; its view is
//! the mathematical matrix `Seq<Seq<int>>` of the entries.  Every operation
//! states its result entry by entry over that view; operations whose exact
//! mathematical result can leave the representable range return a
//! `Result` and say precisely when they succeed.

use vstd::prelude::*;

use crate::fixed::{fixdiv, fixmul, in_range, DIM_MAX, SCALE, VAL_MAX};
use crate::fixed::quot_toward_zero;
use crate::Error;

verus! {

/// The view of a `Vec<i64>` as a sequence of mathematical integers.
pub open spec fn to_ints(v: Seq<i64>) -> Seq<int> {
    v.map(|_i: int, x: i64| x as int)
}

/// A well-formed fixed-point vector: bounded length, bounded entries.
pub open spec fn svec_wf(v: Seq<int>) -> bool {
    &&& v.len() <= DIM_MAX
    &&& forall|i: int| 0 <= i < v.len() ==> in_range(#[trigger] v[i])
}

/// `m` is rectangular with `r` rows and `c` columns.
pub open spec fn is_rect(m: Seq<Seq<int>>, r: int, c: int) -> bool {
    &&& m.len() == r
    &&& forall|i: int| 0 <= i < m.len() ==> (#[trigger] m[i]).len() == c
}

/// Every entry of `m` is within the representable entry range.
pub open spec fn all_in_range(m: Seq<Seq<int>>) -> bool {
    forall|i: int, j: int|
        0 <= i < m.len() && 0 <= j < m[i].len() ==> in_range(#[trigger] m[i][j])
}

/// Column `j` of `m`.
pub open spec fn scol(m: Seq<Seq<int>>, j: int) -> Seq<int> {
    Seq::new(m.len(), |i: int| m[i][j])
}

/// Dot product of the first `k` entries of `a` and `b`.
pub open spec fn sdot(a: Seq<int>, b: Seq<int>, k: nat) -> int
    decreases k,
{
    if k == 0 {
        0
    } else {
        sdot(a, b, (k - 1) as nat) + a[k - 1] * b[k - 1]
    }
}

/// Sum of the first `k` entries of `a`.
pub open spec fn ssum(a: Seq<int>, k: nat) -> int
    decreases k,
{
    if k == 0 {
        0
    } else {
        ssum(a, (k - 1) as nat) + a[k - 1]
    }
}

/// Entry `(i, j)` of the fixed-point matrix product of `a` and `b`,
/// additionally divided by `d`: the raw dot product is scaled back down
/// by `SCALE` and then by `d`, both truncating toward zero.
pub open spec fn smm_entry(a: Seq<Seq<int>>, b: Seq<Seq<int>>, d: int, i: int, j: int) -> int {
    fixdiv(fixdiv(sdot(a[i], scol(b, j), b.len()), SCALE as int), d)
}

/// The fixed-point matrix product of `a` and `b` divided by `d`, where
/// `bc` is the column count of `b`.
pub open spec fn smm(a: Seq<Seq<int>>, b: Seq<Seq<int>>, bc: nat, d: int) -> Seq<Seq<int>> {
    Seq::new(a.len(), |i: int| Seq::new(bc, |j: int| smm_entry(a, b, d, i, j)))
}

/// Elementwise difference of `a` and `b`.
pub open spec fn ssub(a: Seq<Seq<int>>, b: Seq<Seq<int>>) -> Seq<Seq<int>> {
    Seq::new(a.len(), |i: int| Seq::new(a[i].len(), |j: int| a[i][j] - b[i][j]))
}

/// `m` with vector `b` added to every column (`b[i]` to row `i`).
pub open spec fn sadd_bias(m: Seq<Seq<int>>, b: Seq<int>) -> Seq<Seq<int>> {
    Seq::new(m.len(), |i: int| Seq::new(m[i].len(), |j: int| m[i][j] + b[i]))
}

/// Elementwise fixed-point product of `a` and `b`.
pub open spec fn semul(a: Seq<Seq<int>>, b: Seq<Seq<int>>) -> Seq<Seq<int>> {
    Seq::new(a.len(), |i: int| Seq::new(a[i].len(), |j: int| fixmul(a[i][j], b[i][j])))
}

/// The transpose of `m`, where `c` is the column count of `m`.
pub open spec fn stranspose(m: Seq<Seq<int>>, c: nat) -> Seq<Seq<int>> {
    Seq::new(c, |j: int| Seq::new(m.len(), |i: int| m[i][j]))
}

/// Row sums of `m` divided by `d` (`c` is the column count of `m`).
pub open spec fn srow_mean(m: Seq<Seq<int>>, c: nat, d: int) -> Seq<int> {
    Seq::new(m.len(), |i: int| fixdiv(ssum(m[i], c), d))
}

/// The row list `data` is rectangular with dimensions within bounds.
pub open spec fn rows_dims_ok(data: Seq<Vec<i64>>) -> bool {
    &&& data.len() <= DIM_MAX
    &&& (data.len() == 0 || data[0]@.len() <= DIM_MAX)
    &&& forall|i: int| 0 <= i < data.len()
        ==> (#[trigger] data[i]@).len() == (if data.len() > 0 { data[0]@.len() as int } else { 0 })
}

/// Every entry of the row list `data` is within the representable range.
pub open spec fn rows_entries_ok(data: Seq<Vec<i64>>) -> bool {
    forall|i: int, j: int|
        0 <= i < data.len() && 0 <= j < data[i]@.len()
            ==> in_range(#[trigger] data[i]@[j] as int)
}

/// A dense matrix of fixed-point entries, stored row-major.
#[derive(Debug)]
pub struct Matrix {
    pub rows: usize,
    pub cols: usize,
    pub data: Vec<Vec<i64>>,
}

impl View for Matrix {
    type V = Seq<Seq<int>>;

    open spec fn view(&self) -> Seq<Seq<int>> {
        Seq::new(self.data@.len(), |i: int| to_ints(self.data@[i]@))
    }
}

impl Matrix {
    /// Well-formedness: the stated dimensions are within bounds and match
    /// the storage, and every entry is within the representable range.
    pub open spec fn wf(self) -> bool {
        &&& self.rows <= DIM_MAX
        &&& self.cols <= DIM_MAX
        &&& is_rect(self@, self.rows as int, self.cols as int)
        &&& all_in_range(self@)
    }

    /// The storage of a well-formed matrix matches its view row by row.
    pub proof fn lemma_wf_data(self)
        requires
            self.wf(),
        ensures
            self.data@.len() == self.rows,
            forall|i: int| 0 <= i < self.rows ==> (#[trigger] self.data@[i])@.len() == self.cols,
            forall|i: int, j: int|
                0 <= i < self.rows && 0 <= j < self.cols
                    ==> self@[i][j] == #[trigger] self.data@[i]@[j] as int
                        && -VAL_MAX <= self.data@[i]@[j] <= VAL_MAX,
    {
        assert forall|i: int| 0 <= i < self.rows implies
            (#[trigger] self.data@[i])@.len() == self.cols by {
            assert(self@[i].len() == self.cols);
        }
        assert forall|i: int, j: int|
            0 <= i < self.rows && 0 <= j < self.cols implies
            self@[i][j] == #[trigger] self.data@[i]@[j] as int
                && -VAL_MAX <= self.data@[i]@[j] <= VAL_MAX by {
            assert(self@[i][j] == to_ints(self.data@[i]@)[j]);
            assert(in_range(self@[i][j]));
        }
    }

    /// Builds a matrix from rows, rejecting ragged rows, oversized
    /// dimensions and out-of-range entries.  An empty row list or empty
    /// rows are accepted and give a matrix with zero columns or rows.
    pub fn from_rows(data: Vec<Vec<i64>>) -> (r: Result<Matrix, Error>)
        ensures
            r matches Ok(m) ==> {
                &&& m.wf()
                &&& m.rows == data@.len()
                &&& m.cols == (if data@.len() > 0 { data@[0]@.len() as int } else { 0 })
                &&& forall|i: int| 0 <= i < data@.len() ==> m@[i] == to_ints(#[trigger] data@[i]@)
            },
            r is Ok <==> rows_dims_ok(data@) && rows_entries_ok(data@),
            !rows_dims_ok(data@) ==> r == Err::<Matrix, Error>(Error::ShapeMismatch),
            rows_dims_ok(data@) && !rows_entries_ok(data@)
                ==> r == Err::<Matrix, Error>(Error::NumericDegeneracy),
    {
        let rows = data.len();
        if rows > DIM_MAX {
            return Err(Error::ShapeMismatch);
        }
        let cols = if rows > 0 { data[0].len() } else { 0 };
        if cols > DIM_MAX {
            return Err(Error::ShapeMismatch);
        }
        let mut i: usize = 0;
        while i < rows
            invariant
                rows == data@.len(),
                rows <= DIM_MAX,
                cols <= DIM_MAX,
                rows > 0 ==> cols == data@[0]@.len(),
                rows == 0 ==> cols == 0,
                i <= rows,
                forall|i2: int| 0 <= i2 < i ==> (#[trigger] data@[i2]@).len() == cols,
            decreases rows - i,
        {
            if data[i].len() != cols {
                return Err(Error::ShapeMismatch);
            }
            i += 1;
        }
        assert(rows_dims_ok(data@));
        let mut i: usize = 0;
        while i < rows
            invariant
                rows == data@.len(),
                rows <= DIM_MAX,
                cols <= DIM_MAX,
                rows > 0 ==> cols == data@[0]@.len(),
                rows == 0 ==> cols == 0,
                i <= rows,
                rows_dims_ok(data@),
                forall|i2: int| 0 <= i2 < rows ==> (#[trigger] data@[i2]@).len() == cols,
                forall|i2: int, j2: int|
                    0 <= i2 < i && 0 <= j2 < cols
                        ==> -VAL_MAX <= #[trigger] data@[i2]@[j2] <= VAL_MAX,
            decreases rows - i,
        {
            let row = &data[i];
            let mut j: usize = 0;
            while j < cols
                invariant
                    j <= cols,
                    i < rows,
                    rows == data@.len(),
                    rows_dims_ok(data@),
                    row@ == data@[i as int]@,
                    row@.len() == cols,
                    forall|j2: int| 0 <= j2 < j ==> -VAL_MAX <= #[trigger] row@[j2] <= VAL_MAX,
                decreases cols - j,
            {
                let x = row[j];
                if x < -VAL_MAX || x > VAL_MAX {
                    proof {
                        assert(data@[i as int]@[j as int] == x);
                        assert(!in_range(data@[i as int]@[j as int] as int));
                        assert(!rows_entries_ok(data@));
                    }
                    return Err(Error::NumericDegeneracy);
                }
                j += 1;
            }
            i += 1;
        }
        let m = Matrix { rows, cols, data };
        proof {
            assert(is_rect(m@, m.rows as int, m.cols as int));
            assert(all_in_range(m@));
        }
        Ok(m)
    }

    /// Reads one entry.
    pub fn get(&self, i: usize, j: usize) -> (r: i64)
        requires
            self.wf(),
            i < self.rows,
            j < self.cols,
        ensures
            r as int == self@[i as int][j as int],
    {
        proof {
            self.lemma_wf_data();
        }
        self.data[i][j]
    }

    /// The transpose.
    pub fn transpose(&self) -> (r: Matrix)
        requires
            self.wf(),
        ensures
            r.wf(),
            r.rows == self.cols,
            r.cols == self.rows,
            r@ == stranspose(self@, self.cols as nat),
    {
        let mut out: Vec<Vec<i64>> = Vec::new();
        let mut j: usize = 0;
        while j < self.cols
            invariant
                self.wf(),
                j <= self.cols,
                out@.len() == j,
                forall|j2: int| 0 <= j2 < j ==> (#[trigger] out@[j2]@).len() == self.rows,
                forall|j2: int, i2: int|
                    0 <= j2 < j && 0 <= i2 < self.rows
                        ==> #[trigger] out@[j2]@[i2] as int == self@[i2][j2],
            decreases self.cols - j,
        {
            let mut row: Vec<i64> = Vec::new();
            let mut i: usize = 0;
            while i < self.rows
                invariant
                    self.wf(),
                    j < self.cols,
                    i <= self.rows,
                    row@.len() == i,
                    forall|i2: int| 0 <= i2 < i ==> #[trigger] row@[i2] as int == self@[i2][j as int],
                decreases self.rows - i,
            {
                proof {
                    self.lemma_wf_data();
                }
                row.push(self.data[i][j]);
                i += 1;
            }
            out.push(row);
            j += 1;
        }
        let m = Matrix { rows: self.cols, cols: self.rows, data: out };
        proof {
            assert(m@ =~~= stranspose(self@, self.cols as nat));
        }
        m
    }
}

/// Fixed-point matrix product divided by `d`: entry `(i, j)` of the result
/// is `((a_i . b_j) / SCALE) / d` with both divisions truncating toward
/// zero.  Succeeds exactly when every such entry is representable.
pub fn mat_mul_div(a: &Matrix, b: &Matrix, d: i64) -> (r: Result<Matrix, Error>)
    requires
        a.wf(),
        b.wf(),
        a.cols == b.rows,
        1 <= d,
    ensures
        r is Ok <==> all_in_range(smm(a@, b@, b.cols as nat, d as int)),
        r matches Ok(m) ==> {
            &&& m.wf()
            &&& m.rows == a.rows
            &&& m.cols == b.cols
            &&& m@ == smm(a@, b@, b.cols as nat, d as int)
        },
        r matches Err(e) ==> e == Error::NumericDegeneracy,
{
    let mut out: Vec<Vec<i64>> = Vec::new();
    let mut i: usize = 0;
    while i < a.rows
        invariant
            a.wf(),
            b.wf(),
            a.cols == b.rows,
            1 <= d,
            i <= a.rows,
            out@.len() == i,
            forall|i2: int| 0 <= i2 < i ==> (#[trigger] out@[i2]@).len() == b.cols,
            forall|i2: int, j2: int|
                0 <= i2 < i && 0 <= j2 < b.cols
                    ==> #[trigger] out@[i2]@[j2] as int == smm_entry(a@, b@, d as int, i2, j2)
                        && in_range(out@[i2]@[j2] as int),
        decreases a.rows - i,
    {
        let mut row: Vec<i64> = Vec::new();
        let mut j: usize = 0;
        while j < b.cols
            invariant
                a.wf(),
                b.wf(),
                a.cols == b.rows,
                1 <= d,
                i < a.rows,
                j <= b.cols,
                row@.len() == j,
                forall|j2: int|
                    0 <= j2 < j
                        ==> #[trigger] row@[j2] as int == smm_entry(a@, b@, d as int, i as int, j2)
                            && in_range(row@[j2] as int),
            decreases b.cols - j,
        {
            let mut acc: i128 = 0;
            let mut k: usize = 0;
            while k < a.cols
                invariant
                    a.wf(),
                    b.wf(),
                    a.cols == b.rows,
                    i < a.rows,
                    j < b.cols,
                    k <= a.cols,
                    acc == sdot(a@[i as int], scol(b@, j as int), k as nat),
                    -(k as int) * (VAL_MAX as int) * (VAL_MAX as int) <= acc
                        <= (k as int) * (VAL_MAX as int) * (VAL_MAX as int),
                decreases a.cols - k,
            {
                proof {
                    assert(a@[i as int].len() == a.cols);
                    assert(b@[k as int].len() == b.cols);
                    assert(a.data@[i as int]@.len() == a.cols);
                    assert(b.data@[k as int]@.len() == b.cols);
                }
                let x: i64 = a.data[i][k];
                let y: i64 = b.data[k][j];
                proof {
                    assert(x as int == a@[i as int][k as int]);
                    assert(y as int == b@[k as int][j as int]);
                    assert(in_range(a@[i as int][k as int]));
                    assert(in_range(b@[k as int][j as int]));
                    assert(-(VAL_MAX as int) * (VAL_MAX as int) <= (x as int) * (y as int)
                        <= (VAL_MAX as int) * (VAL_MAX as int)) by (nonlinear_arith)
                        requires
                            -VAL_MAX <= x as int <= VAL_MAX,
                            -VAL_MAX <= y as int <= VAL_MAX,
                    ;
                    assert((k as int) * (VAL_MAX as int) * (VAL_MAX as int)
                        <= (DIM_MAX as int) * (VAL_MAX as int) * (VAL_MAX as int))
                        by (nonlinear_arith)
                        requires
                            0 <= k as int <= DIM_MAX as int,
                    ;
                    assert(((k + 1) as int) * (VAL_MAX as int) * (VAL_MAX as int)
                        == (k as int) * (VAL_MAX as int) * (VAL_MAX as int)
                            + (VAL_MAX as int) * (VAL_MAX as int)) by (nonlinear_arith);
                    assert(((k + 1) as int) * (VAL_MAX as int) * (VAL_MAX as int)
                        <= (DIM_MAX as int) * (VAL_MAX as int) * (VAL_MAX as int))
                        by (nonlinear_arith)
                        requires
                            0 <= (k + 1) as int <= DIM_MAX as int,
                    ;
                }
                let p: i128 = (x as i128) * (y as i128);
                acc = acc + p;
                proof {
                    assert(scol(b@, j as int)[k as int] == b@[k as int][j as int]);
                }
                k += 1;
            }
            proof {
                assert((DIM_MAX as int) * (VAL_MAX as int) * (VAL_MAX as int)
                    < 0x7fffffffffffffffffffffffffffffff) by (nonlinear_arith);
            }
            let q1: i128 = quot_toward_zero(acc, SCALE as i128);
            let q2: i128 = quot_toward_zero(q1, d as i128);
            proof {
                assert(q2 == smm_entry(a@, b@, d as int, i as int, j as int));
            }
            if q2 < -(VAL_MAX as i128) || q2 > VAL_MAX as i128 {
                proof {
                    let v = smm(a@, b@, b.cols as nat, d as int);
                    assert(v[i as int][j as int] == smm_entry(a@, b@, d as int, i as int, j as int));
                    assert(!in_range(v[i as int][j as int]));
                }
                return Err(Error::NumericDegeneracy);
            }
            row.push(q2 as i64);
            j += 1;
        }
        out.push(row);
        i += 1;
    }
    let m = Matrix { rows: a.rows, cols: b.cols, data: out };
    proof {
        assert(m@ =~~= smm(a@, b@, b.cols as nat, d as int));
    }
    Ok(m)
}

/// Elementwise difference `a - b`.  Succeeds exactly when every entry of
/// the difference is representable.
pub fn mat_sub(a: &Matrix, b: &Matrix) -> (r: Result<Matrix, Error>)
    requires
        a.wf(),
        b.wf(),
        a.rows == b.rows,
        a.cols == b.cols,
    ensures
        r is Ok <==> all_in_range(ssub(a@, b@)),
        r matches Ok(m) ==> {
            &&& m.wf()
            &&& m.rows == a.rows
            &&& m.cols == a.cols
            &&& m@ == ssub(a@, b@)
        },
        r matches Err(e) ==> e == Error::NumericDegeneracy,
{
    let mut out: Vec<Vec<i64>> = Vec::new();
    let mut i: usize = 0;
    while i < a.rows
        invariant
            a.wf(),
            b.wf(),
            a.rows == b.rows,
            a.cols == b.cols,
            i <= a.rows,
            out@.len() == i,
            forall|i2: int| 0 <= i2 < i ==> (#[trigger] out@[i2]@).len() == a.cols,
            forall|i2: int, j2: int|
                0 <= i2 < i && 0 <= j2 < a.cols
                    ==> #[trigger] out@[i2]@[j2] as int == a@[i2][j2] - b@[i2][j2]
                        && in_range(out@[i2]@[j2] as int),
        decreases a.rows - i,
    {
        let mut row: Vec<i64> = Vec::new();
        let mut j: usize = 0;
        while j < a.cols
            invariant
                a.wf(),
                b.wf(),
                a.rows == b.rows,
                a.cols == b.cols,
                i < a.rows,
                j <= a.cols,
                row@.len() == j,
                forall|j2: int|
                    0 <= j2 < j
                        ==> #[trigger] row@[j2] as int == a@[i as int][j2] - b@[i as int][j2]
                            && in_range(row@[j2] as int),
            decreases a.cols - j,
        {
            proof {
                a.lemma_wf_data();
                b.lemma_wf_data();
            }
            let x: i64 = a.data[i][j];
            let y: i64 = b.data[i][j];
            let s: i64 = x - y;
            if s < -VAL_MAX || s > VAL_MAX {
                proof {
                    assert(ssub(a@, b@)[i as int][j as int] == a@[i as int][j as int] - b@[i as int][j as int]);
                    assert(!in_range(ssub(a@, b@)[i as int][j as int]));
                }
                return Err(Error::NumericDegeneracy);
            }
            row.push(s);
            j += 1;
        }
        out.push(row);
        i += 1;
    }
    let m = Matrix { rows: a.rows, cols: a.cols, data: out };
    proof {
        assert(m@ =~~= ssub(a@, b@));
        assert forall|i2: int, j2: int|
            0 <= i2 < m@.len() && 0 <= j2 < m@[i2].len() implies in_range(#[trigger] m@[i2][j2]) by {
            assert(m@[i2][j2] == out@[i2]@[j2] as int);
        }
    }
    Ok(m)
}

/// Adds the column vector `b` to every column of `m` (`b[i]` to row `i`),
/// the broadcast bias addition of the forward pass.  Succeeds exactly when
/// every entry of the sum is representable.
pub fn add_bias(m: &Matrix, b: &Vec<i64>) -> (r: Result<Matrix, Error>)
    requires
        m.wf(),
        svec_wf(to_ints(b@)),
        b@.len() == m.rows,
    ensures
        r is Ok <==> all_in_range(sadd_bias(m@, to_ints(b@))),
        r matches Ok(o) ==> {
            &&& o.wf()
            &&& o.rows == m.rows
            &&& o.cols == m.cols
            &&& o@ == sadd_bias(m@, to_ints(b@))
        },
        r matches Err(e) ==> e == Error::NumericDegeneracy,
{
    let mut out: Vec<Vec<i64>> = Vec::new();
    let mut i: usize = 0;
    while i < m.rows
        invariant
            m.wf(),
            svec_wf(to_ints(b@)),
            b@.len() == m.rows,
            i <= m.rows,
            out@.len() == i,
            forall|i2: int| 0 <= i2 < i ==> (#[trigger] out@[i2]@).len() == m.cols,
            forall|i2: int, j2: int|
                0 <= i2 < i && 0 <= j2 < m.cols
                    ==> #[trigger] out@[i2]@[j2] as int == m@[i2][j2] + b@[i2] as int
                        && in_range(out@[i2]@[j2] as int),
        decreases m.rows - i,
    {
        let mut row: Vec<i64> = Vec::new();
        let mut j: usize = 0;
        while j < m.cols
            invariant
                m.wf(),
                svec_wf(to_ints(b@)),
                b@.len() == m.rows,
                i < m.rows,
                j <= m.cols,
                row@.len() == j,
                forall|j2: int|
                    0 <= j2 < j
                        ==> #[trigger] row@[j2] as int == m@[i as int][j2] + b@[i as int] as int
                            && in_range(row@[j2] as int),
            decreases m.cols - j,
        {
            proof {
                m.lemma_wf_data();
                assert(in_range(to_ints(b@)[i as int]));
            }
            let x: i64 = m.data[i][j];
            let y: i64 = b[i];
            let s: i64 = x + y;
            if s < -VAL_MAX || s > VAL_MAX {
                proof {
                    assert(sadd_bias(m@, to_ints(b@))[i as int][j as int]
                        == m@[i as int][j as int] + b@[i as int] as int);
                    assert(!in_range(sadd_bias(m@, to_ints(b@))[i as int][j as int]));
                }
                return Err(Error::NumericDegeneracy);
            }
            row.push(s);
            j += 1;
        }
        out.push(row);
        i += 1;
    }
    let o = Matrix { rows: m.rows, cols: m.cols, data: out };
    proof {
        assert(o@ =~~= sadd_bias(m@, to_ints(b@)));
        assert forall|i2: int, j2: int|
            0 <= i2 < o@.len() && 0 <= j2 < o@[i2].len() implies in_range(#[trigger] o@[i2][j2]) by {
            assert(o@[i2][j2] == out@[i2]@[j2] as int);
        }
    }
    Ok(o)
}

/// Elementwise fixed-point product of `a` and `b`.  Succeeds exactly when
/// every entry of the product is representable.
pub fn elem_mul(a: &Matrix, b: &Matrix) -> (r: Result<Matrix, Error>)
    requires
        a.wf(),
        b.wf(),
        a.rows == b.rows,
        a.cols == b.cols,
    ensures
        r is Ok <==> all_in_range(semul(a@, b@)),
        r matches Ok(m) ==> {
            &&& m.wf()
            &&& m.rows == a.rows
            &&& m.cols == a.cols
            &&& m@ == semul(a@, b@)
        },
        r matches Err(e) ==> e == Error::NumericDegeneracy,
{
    let mut out: Vec<Vec<i64>> = Vec::new();
    let mut i: usize = 0;
    while i < a.rows
        invariant
            a.wf(),
            b.wf(),
            a.rows == b.rows,
            a.cols == b.cols,
            i <= a.rows,
            out@.len() == i,
            forall|i2: int| 0 <= i2 < i ==> (#[trigger] out@[i2]@).len() == a.cols,
            forall|i2: int, j2: int|
                0 <= i2 < i && 0 <= j2 < a.cols
                    ==> #[trigger] out@[i2]@[j2] as int == fixmul(a@[i2][j2], b@[i2][j2])
                        && in_range(out@[i2]@[j2] as int),
        decreases a.rows - i,
    {
        let mut row: Vec<i64> = Vec::new();
        let mut j: usize = 0;
        while j < a.cols
            invariant
                a.wf(),
                b.wf(),
                a.rows == b.rows,
                a.cols == b.cols,
                i < a.rows,
                j <= a.cols,
                row@.len() == j,
                forall|j2: int|
                    0 <= j2 < j
                        ==> #[trigger] row@[j2] as int == fixmul(a@[i as int][j2], b@[i as int][j2])
                            && in_range(row@[j2] as int),
            decreases a.cols - j,
        {
            proof {
                a.lemma_wf_data();
                b.lemma_wf_data();
            }
            let x: i64 = a.data[i][j];
            let y: i64 = b.data[i][j];
            proof {
                assert(-(VAL_MAX as int) * (VAL_MAX as int) <= (x as int) * (y as int)
                    <= (VAL_MAX as int) * (VAL_MAX as int)) by (nonlinear_arith)
                    requires
                        -VAL_MAX <= x as int <= VAL_MAX,
                        -VAL_MAX <= y as int <= VAL_MAX,
                ;
            }
            let p: i128 = (x as i128) * (y as i128);
            let q: i128 = quot_toward_zero(p, SCALE as i128);
            if q < -(VAL_MAX as i128) || q > VAL_MAX as i128 {
                proof {
                    assert(semul(a@, b@)[i as int][j as int]
                        == fixmul(a@[i as int][j as int], b@[i as int][j as int]));
                    assert(!in_range(semul(a@, b@)[i as int][j as int]));
                }
                return Err(Error::NumericDegeneracy);
            }
            row.push(q as i64);
            j += 1;
        }
        out.push(row);
        i += 1;
    }
    let m = Matrix { rows: a.rows, cols: a.cols, data: out };
    proof {
        assert(m@ =~~= semul(a@, b@));
        assert forall|i2: int, j2: int|
            0 <= i2 < m@.len() && 0 <= j2 < m@[i2].len() implies in_range(#[trigger] m@[i2][j2]) by {
            assert(m@[i2][j2] == out@[i2]@[j2] as int);
        }
    }
    Ok(m)
}

/// Row sums of `m` divided by `d`: entry `i` of the result is
/// `(sum of row i) / d`, truncating toward zero.  Requiring `d` to be at
/// least the column count keeps the result within the entry range, so the
/// operation is total.
pub fn row_mean(m: &Matrix, d: i64) -> (r: Vec<i64>)
    requires
        m.wf(),
        1 <= d,
        m.cols as int <= d,
    ensures
        r@.len() == m.rows,
        to_ints(r@) == srow_mean(m@, m.cols as nat, d as int),
        svec_wf(to_ints(r@)),
{
    let mut out: Vec<i64> = Vec::new();
    let mut i: usize = 0;
    while i < m.rows
        invariant
            m.wf(),
            1 <= d,
            m.cols as int <= d,
            i <= m.rows,
            out@.len() == i,
            forall|i2: int|
                0 <= i2 < i
                    ==> #[trigger] out@[i2] as int == fixdiv(ssum(m@[i2], m.cols as nat), d as int)
                        && in_range(out@[i2] as int),
        decreases m.rows - i,
    {
        let mut acc: i128 = 0;
        let mut k: usize = 0;
        while k < m.cols
            invariant
                m.wf(),
                i < m.rows,
                k <= m.cols,
                acc == ssum(m@[i as int], k as nat),
                -(k as int) * (VAL_MAX as int) <= acc <= (k as int) * (VAL_MAX as int),
            decreases m.cols - k,
        {
            proof {
                m.lemma_wf_data();
                assert(in_range(m@[i as int][k as int]));
                assert(((k + 1) as int) * (VAL_MAX as int)
                    == (k as int) * (VAL_MAX as int) + (VAL_MAX as int)) by (nonlinear_arith);
            }
            let x: i64 = m.data[i][k];
            acc = acc + (x as i128);
            k += 1;
        }
        proof {
            assert((m.cols as int) * (VAL_MAX as int) <= (d as int) * (VAL_MAX as int))
                by (nonlinear_arith)
                requires
                    0 <= m.cols as int <= d as int,
            ;
        }
        let q: i128 = quot_toward_zero(acc, d as i128);
        proof {
            assert(-(VAL_MAX as int) <= q <= VAL_MAX as int) by (nonlinear_arith)
                requires
                    q == fixdiv(acc as int, d as int),
                    -(d as int) * (VAL_MAX as int) <= acc as int <= (d as int) * (VAL_MAX as int),
                    1 <= d,
                    fixdiv(acc as int, d as int) == (if acc as int >= 0 { acc as int / d as int } else { -((-(acc as int)) / d as int) }),
            ;
        }
        out.push(q as i64);
        i += 1;
    }
    proof {
        assert(to_ints(out@) =~= srow_mean(m@, m.cols as nat, d as int));
    }
    out
}

} // verus!
