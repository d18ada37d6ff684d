//! Seeded random parameter initialisation.
//!
//! All randomness enters the library through one trusted call into the
//! `rand` crate.  The values a seeded generator produces are a function of
//! the seed alone, which the uninterpreted `seeded_draws` names; everything
//! built from the draws is then pinned to the seed, which is what makes
//! training reproducible.

use vstd::prelude::*;

use crate::fixed::{in_range, DIM_MAX, HALF};
use crate::matrix::{svec_wf, to_ints, Matrix};
use crate::net::{Parameters, NUM_CLASSES};

verus! {

/// The values rand's standard generator, seeded from `seed`, yields for
/// `n` successive draws from the half-open range `[lo, hi)`.
pub uninterp spec fn seeded_draws(seed: u64, n: nat, lo: int, hi: int) -> Seq<int>;

/// Relies on rand's `StdRng` and its `SeedableRng::seed_from_u64` and
/// `Rng::gen_range`: a generator seeded from a given value yields a stream
/// of values determined by the seed alone, and each `gen_range(lo..hi)`
/// draw lies in `[lo, hi)` (it panics only on an empty range, which the
/// precondition rules out).
#[verifier::external_body]
fn draw_uniform(seed: u64, n: usize, lo: i64, hi: i64) -> (r: Vec<i64>)
    requires
        lo < hi,
    ensures
        r@.len() == n,
        to_ints(r@) == seeded_draws(seed, n as nat, lo as int, hi as int),
        forall|k: int| 0 <= k < r@.len() ==> lo <= #[trigger] r@[k] < hi,
{
    let mut rng = <rand::rngs::StdRng as rand::SeedableRng>::seed_from_u64(seed);
    let mut out = Vec::with_capacity(n);
    for _ in 0..n {
        out.push(rand::Rng::gen_range(&mut rng, lo..hi));
    }
    out
}

/// The `rows x cols` matrix whose row `i` holds entries
/// `v[i * cols .. (i + 1) * cols]`.
pub open spec fn schunk(v: Seq<int>, rows: nat, cols: nat) -> Seq<Seq<int>> {
    Seq::new(rows, |i: int| Seq::new(cols, |j: int| v[i * cols + j]))
}

/// Copies `rows * cols` entries of `v`, starting at `off`, into a matrix
/// row by row.
fn chunk_matrix(v: &Vec<i64>, off: usize, rows: usize, cols: usize) -> (m: Matrix)
    requires
        rows <= DIM_MAX,
        cols <= DIM_MAX,
        off + rows * cols <= v@.len(),
        forall|k: int| off <= k < v@.len() ==> in_range(#[trigger] v@[k] as int),
    ensures
        m.wf(),
        m.rows == rows,
        m.cols == cols,
        m@ == schunk(to_ints(v@).subrange(off as int, off as int + rows * cols), rows as nat,
            cols as nat),
{
    let vlen: usize = v.len();
    let mut out: Vec<Vec<i64>> = Vec::new();
    let mut i: usize = 0;
    while i < rows
        invariant
            rows <= DIM_MAX,
            cols <= DIM_MAX,
            vlen == v@.len(),
            off + rows * cols <= vlen,
            forall|k: int| off <= k < v@.len() ==> in_range(#[trigger] v@[k] as int),
            i <= rows,
            out@.len() == i,
            forall|i2: int| 0 <= i2 < i ==> (#[trigger] out@[i2]@).len() == cols,
            forall|i2: int, j2: int|
                0 <= i2 < i && 0 <= j2 < cols
                    ==> #[trigger] out@[i2]@[j2] as int == v@[off + i2 * cols + j2] as int,
        decreases rows - i,
    {
        let mut row: Vec<i64> = Vec::new();
        let mut j: usize = 0;
        proof {
            assert(i as int * cols as int + cols as int <= rows as int * cols as int)
                by (nonlinear_arith)
                requires
                    0 <= i as int,
                    (i as int) < (rows as int),
                    0 <= cols,
            ;
            assert(0 <= i as int * cols as int) by (nonlinear_arith)
                requires
                    0 <= i as int,
                    0 <= cols as int,
            ;
            assert(off as int + i as int * cols as int + cols as int <= vlen as int);
        }
        let base: usize = off + i * cols;
        while j < cols
            invariant
                vlen == v@.len(),
                off + rows * cols <= vlen,
                forall|k: int| off <= k < v@.len() ==> in_range(#[trigger] v@[k] as int),
                i < rows,
                j <= cols,
                base == off + i * cols,
                base + cols <= vlen,
                off <= base,
                row@.len() == j,
                forall|j2: int|
                    0 <= j2 < j ==> #[trigger] row@[j2] as int == v@[base + j2] as int,
            decreases cols - j,
        {
            row.push(v[base + j]);
            j += 1;
        }
        out.push(row);
        i += 1;
    }
    let m = Matrix { rows, cols, data: out };
    proof {
        let w = to_ints(v@).subrange(off as int, off as int + rows * cols);
        assert forall|i2: int, j2: int|
            0 <= i2 < rows && 0 <= j2 < cols implies
            m@[i2][j2] == schunk(w, rows as nat, cols as nat)[i2][j2] by {
            assert(0 <= i2 * cols + j2 < rows * cols) by (nonlinear_arith)
                requires
                    0 <= i2,
                    i2 < rows as int,
                    0 <= j2,
                    j2 < cols as int,
            ;
            assert(m@[i2][j2] == out@[i2]@[j2] as int);
            assert(w[i2 * (cols as int) + j2] == v@[off + i2 * cols + j2] as int);
        }
        assert(m@ =~~= schunk(w, rows as nat, cols as nat));
        assert forall|i2: int, j2: int|
            0 <= i2 < m@.len() && 0 <= j2 < m@[i2].len() implies in_range(#[trigger] m@[i2][j2]) by {
            assert(0 <= i2 * cols + j2 < rows * cols) by (nonlinear_arith)
                requires
                    0 <= i2,
                    i2 < rows as int,
                    0 <= j2,
                    j2 < cols as int,
            ;
            assert(m@[i2][j2] == v@[off + i2 * cols + j2] as int);
        }
    }
    m
}

/// Copies `len` entries of `v`, starting at `off`, into a fresh vector.
fn chunk_vec(v: &Vec<i64>, off: usize, len: usize) -> (r: Vec<i64>)
    requires
        len <= DIM_MAX,
        off + len <= v@.len(),
        forall|k: int| off <= k < v@.len() ==> in_range(#[trigger] v@[k] as int),
    ensures
        r@.len() == len,
        to_ints(r@) == to_ints(v@).subrange(off as int, off as int + len),
        svec_wf(to_ints(r@)),
{
    let vlen: usize = v.len();
    let mut out: Vec<i64> = Vec::new();
    let mut j: usize = 0;
    while j < len
        invariant
            vlen == v@.len(),
            off + len <= vlen,
            forall|k: int| off <= k < v@.len() ==> in_range(#[trigger] v@[k] as int),
            j <= len,
            out@.len() == j,
            forall|j2: int| 0 <= j2 < j ==> #[trigger] out@[j2] as int == v@[off + j2] as int,
        decreases len - j,
    {
        out.push(v[off + j]);
        j += 1;
    }
    proof {
        assert(to_ints(out@) =~= to_ints(v@).subrange(off as int, off as int + len));
        assert forall|k: int| 0 <= k < to_ints(out@).len() implies
            in_range(#[trigger] to_ints(out@)[k]) by {
            assert(to_ints(out@)[k] == v@[off + k] as int);
        }
    }
    out
}

/// A `rows x cols` matrix of independent draws, uniform over
/// `[-1/2, 1/2)`, determined by the seed alone.
pub fn rand_array2(seed: u64, rows: usize, cols: usize) -> (m: Matrix)
    requires
        rows <= DIM_MAX,
        cols <= DIM_MAX,
        rows * cols <= usize::MAX,
    ensures
        m.wf(),
        m.rows == rows,
        m.cols == cols,
        m@ == schunk(seeded_draws(seed, (rows * cols) as nat, -HALF as int, HALF as int),
            rows as nat, cols as nat),
        forall|i: int, j: int|
            0 <= i < rows && 0 <= j < cols ==> -HALF <= #[trigger] m@[i][j] < HALF,
{
    let n: usize = rows * cols;
    let v = draw_uniform(seed, n, -HALF, HALF);
    let m = chunk_matrix(&v, 0, rows, cols);
    proof {
        assert(to_ints(v@).subrange(0, rows * cols as int) =~= to_ints(v@));
        assert forall|i: int, j: int|
            0 <= i < rows && 0 <= j < cols implies -HALF <= #[trigger] m@[i][j] < HALF by {
            assert(0 <= i * cols + j < rows * cols) by (nonlinear_arith)
                requires
                    0 <= i,
                    i < rows as int,
                    0 <= j,
                    j < cols as int,
            ;
            assert(m@[i][j] == to_ints(v@)[i * (cols as int) + j]);
            assert(-HALF <= v@[i * (cols as int) + j] < HALF);
        }
    }
    m
}

/// A vector of `size` independent draws, uniform over `[-1/2, 1/2)`,
/// determined by the seed alone.
pub fn rand_array1(seed: u64, size: usize) -> (r: Vec<i64>)
    requires
        size <= DIM_MAX,
    ensures
        r@.len() == size,
        to_ints(r@) == seeded_draws(seed, size as nat, -HALF as int, HALF as int),
        svec_wf(to_ints(r@)),
        forall|i: int| 0 <= i < size ==> -HALF <= #[trigger] r@[i] < HALF,
{
    let v = draw_uniform(seed, size, -HALF, HALF);
    proof {
        assert forall|k: int| 0 <= k < to_ints(v@).len() implies
            in_range(#[trigger] to_ints(v@)[k]) by {
            assert(to_ints(v@)[k] == v@[k] as int);
        }
    }
    v
}

/// The number of draws parameter initialisation consumes for input width
/// `d` and hidden width `h`.
pub open spec fn init_draw_count(d: nat, h: nat) -> nat {
    h * d + h + (NUM_CLASSES as nat) * h + (NUM_CLASSES as nat)
}

/// The four initial parameter tensors for a given seed: consecutive
/// stretches of one seeded draw stream, reshaped.
pub open spec fn sinit(seed: u64, d: nat, h: nat) -> (
    Seq<Seq<int>>,
    Seq<int>,
    Seq<Seq<int>>,
    Seq<int>,
) {
    let v = seeded_draws(seed, init_draw_count(d, h), -HALF as int, HALF as int);
    let o1 = (h * d) as int;
    let o2 = o1 + h;
    let o3 = o2 + (NUM_CLASSES as nat) * h;
    let o4 = o3 + NUM_CLASSES;
    (
        schunk(v.subrange(0, o1), h, d),
        v.subrange(o1, o2),
        schunk(v.subrange(o2, o3), NUM_CLASSES as nat, h),
        v.subrange(o3, o4),
    )
}

/// Freshly initialised parameters for hidden width `hidden` over inputs of
/// width `input_dim`: every entry drawn independently, uniformly from
/// `[-1/2, 1/2)`, from one stream seeded by `seed` — so the result is a
/// function of the seed and the two widths alone.
pub fn init_variables(seed: u64, input_dim: usize, hidden: usize) -> (r: Parameters)
    requires
        1 <= input_dim <= DIM_MAX,
        1 <= hidden <= DIM_MAX,
        hidden * input_dim + hidden + NUM_CLASSES * hidden + NUM_CLASSES <= usize::MAX,
    ensures
        r.wf(),
        r.w1.rows == hidden,
        r.w1.cols == input_dim,
        r.b1@.len() == hidden,
        r.w2.rows == NUM_CLASSES,
        r.w2.cols == hidden,
        r.b2@.len() == NUM_CLASSES,
        r.w1@ == sinit(seed, input_dim as nat, hidden as nat).0,
        to_ints(r.b1@) == sinit(seed, input_dim as nat, hidden as nat).1,
        r.w2@ == sinit(seed, input_dim as nat, hidden as nat).2,
        to_ints(r.b2@) == sinit(seed, input_dim as nat, hidden as nat).3,
        forall|i: int, j: int|
            0 <= i < hidden && 0 <= j < input_dim ==> -HALF <= #[trigger] r.w1@[i][j] < HALF,
{
    let o1: usize = hidden * input_dim;
    let o2: usize = o1 + hidden;
    let o3: usize = o2 + NUM_CLASSES * hidden;
    let n: usize = o3 + NUM_CLASSES;
    let v = draw_uniform(seed, n, -HALF, HALF);
    proof {
        assert(n as nat == init_draw_count(input_dim as nat, hidden as nat));
        assert forall|k: int| 0 <= k < v@.len() implies in_range(#[trigger] v@[k] as int) by {
            assert(-HALF <= v@[k] < HALF);
        }
    }
    let w1 = chunk_matrix(&v, 0, hidden, input_dim);
    let b1 = chunk_vec(&v, o1, hidden);
    let w2 = chunk_matrix(&v, o2, NUM_CLASSES, hidden);
    let b2 = chunk_vec(&v, o3, NUM_CLASSES);
    let r = Parameters { w1, b1, w2, b2 };
    proof {
        let d = input_dim as nat;
        let h = hidden as nat;
        let sv = seeded_draws(seed, init_draw_count(d, h), -HALF as int, HALF as int);
        assert(to_ints(v@) == sv);
        assert(to_ints(v@).subrange(0, 0 + hidden * input_dim) =~= sv.subrange(0, (h * d) as int));
        assert(r.w1@ == sinit(seed, d, h).0);
        assert(to_ints(r.b1@) =~= sinit(seed, d, h).1);
        assert(to_ints(v@).subrange(o2 as int, o2 as int + NUM_CLASSES * hidden)
            =~= sv.subrange((h * d + h) as int, (h * d + h + (NUM_CLASSES as nat) * h) as int));
        assert(r.w2@ == sinit(seed, d, h).2);
        assert(to_ints(r.b2@) =~= sinit(seed, d, h).3);
        assert forall|i: int, j: int|
            0 <= i < hidden && 0 <= j < input_dim implies
            -HALF <= #[trigger] r.w1@[i][j] < HALF by {
            assert(0 <= i * (input_dim as int) + j && i * (input_dim as int) + j < hidden as int
                * input_dim as int) by (nonlinear_arith)
                requires
                    0 <= i,
                    i < hidden as int,
                    0 <= j,
                    j < input_dim as int,
            ;
            assert(r.w1@[i][j] == to_ints(v@).subrange(0, 0 + hidden * input_dim)[
                i * (input_dim as int) + j]);
            assert(r.w1@[i][j] == v@[i * (input_dim as int) + j] as int);
        }
    }
    r
}

} // verus!
