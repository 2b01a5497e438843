//! Batched matrix multiplication: `output[b] = lhs[b] @ rhs[b]`.

use crate::elementwise::zips_by;
use crate::error::{EncodingFault, KernelError};
use crate::layout::{
    check_view,
    element_count,
    flat,
    gather,
    left_of,
    lemma_coordinates_of_flat,
    lemma_flat_in_range,
    mid_of,
    right_of,
    to_contiguous,
    view_fault,
};
use crate::reduce::{folds_to, running_fold};
use vstd::layout::size_of;
use vstd::prelude::*;

verus! {

/// `total` is a dot product of `a` and `b`: the products `a[p] * b[p]`,
/// summed serially from left to right.
pub open spec fn dot_of<T, M: Fn(T, T) -> T, A: Fn(T, T) -> T>(
    times: M,
    plus: A,
    a: Seq<T>,
    b: Seq<T>,
    total: T,
) -> bool {
    exists|products: Seq<T>| #[trigger]
        zips_by(times, a, b, products) && folds_to(plus, products, total)
}

/// Row `i` of matrix `bi` in a row-major tensor `[_, m, k]`.
pub open spec fn row_of<T>(lhs: Seq<T>, bi: int, i: int, m: nat, k: nat) -> Seq<T> {
    Seq::new(k, |p: int| lhs[flat(bi, i, p, m, k)])
}

/// Column `j` of matrix `bi` in a row-major tensor `[_, k, n]`.
pub open spec fn column_of<T>(rhs: Seq<T>, bi: int, j: int, k: nat, n: nat) -> Seq<T> {
    Seq::new(k, |p: int| rhs[flat(bi, p, j, k, n)])
}

/// `out`, read as `[b, m, n]`, is the batched product of `lhs`, read as
/// `[b, m, k]`, and `rhs`, read as `[b, k, n]`: every element is the dot
/// product of a row of `lhs` and a column of `rhs` of the same batch.
pub open spec fn matmul_of<T, M: Fn(T, T) -> T, A: Fn(T, T) -> T>(
    times: M,
    plus: A,
    lhs: Seq<T>,
    rhs: Seq<T>,
    dims: (usize, usize, usize, usize),
    out: Seq<T>,
) -> bool {
    let (b, m, n, k) = dims;
    &&& out.len() == b * m * n
    &&& forall|c: int|
        0 <= c < out.len() ==> dot_of(
            times,
            plus,
            row_of(lhs, left_of(c, m as nat, n as nat), mid_of(c, m as nat, n as nat), m as nat, k as nat),
            column_of(rhs, left_of(c, m as nat, n as nat), right_of(c, n as nat), k as nat, n as nat),
            #[trigger] out[c],
        )
}

/// The shape `[a, b, c]`.
pub open spec fn shape3(a: usize, b: usize, c: usize) -> Seq<usize> {
    seq![a, b, c]
}

/// A rank-3 shape addresses `a * b * c` elements.
pub proof fn lemma_count3(a: usize, b: usize, c: usize)
    ensures
        element_count(shape3(a, b, c)) == a * b * c,
{
    let s = shape3(a, b, c);
    let s2 = s.drop_last();
    let s1 = s2.drop_last();
    assert(s2 =~= seq![a, b]);
    assert(s1 =~= seq![a]);
    assert(s1.drop_last().len() == 0);
    assert(element_count(s1.drop_last()) == 1);
    assert(element_count(s1) == 1 * (a as nat));
    assert(element_count(s2) == element_count(s1) * (b as nat));
    assert(element_count(s) == element_count(s2) * (c as nat));
    assert((1 * a) * b * c == a * b * c) by (nonlinear_arith);
}

/// What makes a matrix-multiplication request unusable, if anything. The
/// offsets are byte offsets into the buffers and must fall on an element.
pub open spec fn gemm_fault(
    size: nat,
    dims: (usize, usize, usize, usize),
    lhs_len: nat,
    lhs_stride: Seq<usize>,
    lhs_offset: usize,
    rhs_len: nat,
    rhs_stride: Seq<usize>,
    rhs_offset: usize,
) -> Option<EncodingFault> {
    let (b, m, n, k) = dims;
    if lhs_stride.len() != 3 || rhs_stride.len() != 3 {
        Some(EncodingFault::RankMismatch)
    } else if b == 0 || m == 0 || n == 0 || k == 0 {
        Some(EncodingFault::ZeroSize)
    } else if size == 0 || lhs_offset as nat % size != 0 || rhs_offset as nat % size != 0 {
        Some(EncodingFault::BufferMismatch)
    } else if view_fault(shape3(b, m, k), lhs_stride, (lhs_offset as nat / size) as usize, lhs_len)
        is Some {
        view_fault(shape3(b, m, k), lhs_stride, (lhs_offset as nat / size) as usize, lhs_len)
    } else if view_fault(shape3(b, k, n), rhs_stride, (rhs_offset as nat / size) as usize, rhs_len)
        is Some {
        view_fault(shape3(b, k, n), rhs_stride, (rhs_offset as nat / size) as usize, rhs_len)
    } else if b * m * n > usize::MAX {
        Some(EncodingFault::BufferMismatch)
    } else {
        None
    }
}

/// Builds the rank-3 shape `[a, b, c]`.
fn make_shape3(a: usize, b: usize, c: usize) -> (shape: Vec<usize>)
    ensures
        shape@ == shape3(a, b, c),
{
    let mut shape: Vec<usize> = Vec::with_capacity(3);
    shape.push(a);
    shape.push(b);
    shape.push(c);
    proof {
        assert(shape@ =~= shape3(a, b, c));
    }
    shape
}

/// What a matrix multiplication works with: the element offsets of the two
/// operands and the number of output elements.
#[derive(Clone, Copy, Debug, PartialEq, Eq, Structural)]
pub struct GemmPlan {
    pub lhs_start: usize,
    pub rhs_start: usize,
    pub total: usize,
}

/// Checks a matrix-multiplication request for elements of `size` bytes
/// against its two buffers, and gives the element offsets and the number of
/// output elements.
pub fn plan_gemm(
    size: usize,
    dims: (usize, usize, usize, usize),
    lhs_len: usize,
    lhs_stride: &[usize],
    lhs_offset: usize,
    rhs_len: usize,
    rhs_stride: &[usize],
    rhs_offset: usize,
) -> (result: Result<GemmPlan, KernelError>)
    ensures
        match result {
            Ok(plan) => {
                &&& gemm_fault(
                    size as nat,
                    dims,
                    lhs_len as nat,
                    lhs_stride@,
                    lhs_offset,
                    rhs_len as nat,
                    rhs_stride@,
                    rhs_offset,
                ) is None
                &&& plan.lhs_start == lhs_offset as nat / size as nat
                &&& plan.rhs_start == rhs_offset as nat / size as nat
                &&& plan.total == dims.0 * dims.1 * dims.2
            },
            Err(e) => gemm_fault(
                size as nat,
                dims,
                lhs_len as nat,
                lhs_stride@,
                lhs_offset,
                rhs_len as nat,
                rhs_stride@,
                rhs_offset,
            ) is Some && e == KernelError::EncodingError(
                gemm_fault(
                    size as nat,
                    dims,
                    lhs_len as nat,
                    lhs_stride@,
                    lhs_offset,
                    rhs_len as nat,
                    rhs_stride@,
                    rhs_offset,
                )->Some_0,
            ),
        },
{
    let b = dims.0;
    let m = dims.1;
    let n = dims.2;
    let k = dims.3;
    if lhs_stride.len() != 3 || rhs_stride.len() != 3 {
        return Err(KernelError::EncodingError(EncodingFault::RankMismatch));
    }
    if b == 0 || m == 0 || n == 0 || k == 0 {
        return Err(KernelError::EncodingError(EncodingFault::ZeroSize));
    }
    if size == 0 || lhs_offset % size != 0 || rhs_offset % size != 0 {
        return Err(KernelError::EncodingError(EncodingFault::BufferMismatch));
    }
    let lhs_shape = make_shape3(b, m, k);
    let rhs_shape = make_shape3(b, k, n);
    let lhs_start = lhs_offset / size;
    let rhs_start = rhs_offset / size;
    match check_view(lhs_shape.as_slice(), lhs_stride, lhs_start, lhs_len) {
        Ok(_) => {},
        Err(e) => {
            return Err(e);
        },
    }
    match check_view(rhs_shape.as_slice(), rhs_stride, rhs_start, rhs_len) {
        Ok(_) => {},
        Err(e) => {
            return Err(e);
        },
    }
    let rows = match b.checked_mul(m) {
        Some(rows) => rows,
        None => {
            proof {
                assert(b * m * n >= b * m) by (nonlinear_arith)
                    requires
                        n >= 1,
                ;
            }
            return Err(KernelError::EncodingError(EncodingFault::BufferMismatch));
        },
    };
    match rows.checked_mul(n) {
        Some(total) => Ok(GemmPlan { lhs_start, rhs_start, total }),
        None => Err(KernelError::EncodingError(EncodingFault::BufferMismatch)),
    }
}

/// Multiplies `b` pairs of matrices: `output[bi] = lhs[bi] @ rhs[bi]`, with
/// `lhs[bi]` of shape `(m, k)` and `rhs[bi]` of shape `(k, n)`.
///
/// Each operand is addressed through its own stride triple
/// `[batch, row, column]` and a byte offset that is applied before the batch
/// stride, so that an offset of one batch stride with `b = 1` reads the same
/// matrices as batch index 1 of a larger batch. Every output element is the
/// sum, in the order of the inner index, of the products of a row and a
/// column.
pub fn run_gemm<T: Copy, M: Fn(T, T) -> T, A: Fn(T, T) -> T>(
    dims: (usize, usize, usize, usize),
    lhs: &[T],
    lhs_stride: Vec<usize>,
    lhs_offset: usize,
    rhs: &[T],
    rhs_stride: Vec<usize>,
    rhs_offset: usize,
    times: M,
    plus: A,
) -> (result: Result<Vec<T>, KernelError>)
    requires
        forall|x: T, y: T| call_requires(times, (x, y)),
        forall|x: T, y: T| call_requires(plus, (x, y)),
    ensures
        match result {
            Ok(out) => gemm_fault(
                size_of::<T>(),
                dims,
                lhs@.len(),
                lhs_stride@,
                lhs_offset,
                rhs@.len(),
                rhs_stride@,
                rhs_offset,
            ) is None && matmul_of(
                times,
                plus,
                gather(
                    lhs@,
                    shape3(dims.0, dims.1, dims.3),
                    lhs_stride@,
                    (lhs_offset as nat / size_of::<T>()) as usize,
                ),
                gather(
                    rhs@,
                    shape3(dims.0, dims.3, dims.2),
                    rhs_stride@,
                    (rhs_offset as nat / size_of::<T>()) as usize,
                ),
                dims,
                out@,
            ),
            Err(e) => gemm_fault(
                size_of::<T>(),
                dims,
                lhs@.len(),
                lhs_stride@,
                lhs_offset,
                rhs@.len(),
                rhs_stride@,
                rhs_offset,
            ) is Some && e == KernelError::EncodingError(
                gemm_fault(
                    size_of::<T>(),
                    dims,
                    lhs@.len(),
                    lhs_stride@,
                    lhs_offset,
                    rhs@.len(),
                    rhs_stride@,
                    rhs_offset,
                )->Some_0,
            ),
        },
{
    let b = dims.0;
    let m = dims.1;
    let n = dims.2;
    let k = dims.3;
    let plan = match plan_gemm(
        core::mem::size_of::<T>(),
        dims,
        lhs.len(),
        lhs_stride.as_slice(),
        lhs_offset,
        rhs.len(),
        rhs_stride.as_slice(),
        rhs_offset,
    ) {
        Ok(plan) => plan,
        Err(e) => {
            return Err(e);
        },
    };
    let total = plan.total;
    let lhs_shape = make_shape3(b, m, k);
    let rhs_shape = make_shape3(b, k, n);
    let left = match to_contiguous(lhs, lhs_shape.as_slice(), lhs_stride.as_slice(), plan.lhs_start) {
        Ok(flat) => flat,
        Err(e) => {
            return Err(e);
        },
    };
    let right = match to_contiguous(rhs, rhs_shape.as_slice(), rhs_stride.as_slice(), plan.rhs_start) {
        Ok(flat) => flat,
        Err(e) => {
            return Err(e);
        },
    };
    proof {
        lemma_count3(b, m, k);
        lemma_count3(b, k, n);
    }
    let left_len = left.len();
    let right_len = right.len();
    let mut out: Vec<T> = Vec::with_capacity(total);
    let mut c: usize = 0;
    while c < total
        invariant
            c <= total,
            total == b * m * n,
            b >= 1,
            m >= 1,
            n >= 1,
            k >= 1,
            left@.len() == b * m * k,
            right@.len() == b * k * n,
            left@.len() == left_len,
            right@.len() == right_len,
            out@.len() == c,
            forall|x: T, y: T| call_requires(times, (x, y)),
            forall|x: T, y: T| call_requires(plus, (x, y)),
            forall|h: int|
                0 <= h < c ==> dot_of(
                    times,
                    plus,
                    row_of(
                        left@,
                        left_of(h, m as nat, n as nat),
                        mid_of(h, m as nat, n as nat),
                        m as nat,
                        k as nat,
                    ),
                    column_of(
                        right@,
                        left_of(h, m as nat, n as nat),
                        right_of(h, n as nat),
                        k as nat,
                        n as nat,
                    ),
                    #[trigger] out@[h],
                ),
        decreases total - c,
    {
        proof {
            lemma_coordinates_of_flat(c as int, b as nat, m as nat, n as nat);
        }
        let q = c / n;
        let bi = q / m;
        let i = q % m;
        let j = c % n;
        let ghost row = row_of(left@, bi as int, i as int, m as nat, k as nat);
        let ghost column = column_of(right@, bi as int, j as int, k as nat, n as nat);
        proof {
            lemma_flat_in_range(bi as int, i as int, 0, b as nat, m as nat, k as nat);
            lemma_flat_in_range(bi as int, 0, j as int, b as nat, k as nat, n as nat);
            assert(0 <= bi * m <= bi * m + i);
            assert(0 <= bi * k <= bi * k + 0);
            assert((bi * m + i) <= (bi * m + i) * k) by (nonlinear_arith)
                requires
                    k >= 1,
                    bi * m + i >= 0,
            ;
            assert((bi * k) <= (bi * k) * n) by (nonlinear_arith)
                requires
                    n >= 1,
                    bi * k >= 0,
            ;
        }
        let row_base = (bi * m + i) * k;
        let first = times(left[row_base], right[(bi * k) * n + j]);
        let mut acc: T = first;
        let ghost mut products: Seq<T> = seq![first];
        let ghost mut trace: Seq<T> = seq![first];
        let mut p: usize = 1;
        while p < k
            invariant
                1 <= p <= k,
                0 <= bi < b,
                0 <= i < m,
                0 <= j < n,
                n >= 1,
                row_base == (bi * m + i) * k,
                left@.len() == b * m * k,
                right@.len() == b * k * n,
                left@.len() == left_len,
                right@.len() == right_len,
                row == row_of(left@, bi as int, i as int, m as nat, k as nat),
                column == column_of(right@, bi as int, j as int, k as nat, n as nat),
                forall|x: T, y: T| call_requires(times, (x, y)),
                forall|x: T, y: T| call_requires(plus, (x, y)),
                products.len() == p,
                forall|h: int|
                    0 <= h < p ==> call_ensures(times, (row[h], column[h]), #[trigger] products[h]),
                running_fold(plus, products, trace),
                trace.last() == acc,
            decreases k - p,
        {
            proof {
                lemma_flat_in_range(bi as int, i as int, p as int, b as nat, m as nat, k as nat);
                lemma_flat_in_range(bi as int, p as int, j as int, b as nat, k as nat, n as nat);
                assert(0 <= bi * k <= bi * k + p);
                assert((bi * k + p) <= (bi * k + p) * n) by (nonlinear_arith)
                    requires
                        n >= 1,
                        bi * k + p >= 0,
                ;
            }
            let product = times(left[row_base + p], right[(bi * k + p) * n + j]);
            acc = plus(acc, product);
            p += 1;
            proof {
                products = products.push(product);
                trace = trace.push(acc);
            }
        }
        proof {
            assert(zips_by(times, row, column, products));
            assert(folds_to(plus, products, acc));
        }
        out.push(acc);
        c += 1;
    }
    Ok(out)
}


/// A product of one batch, taken on the matrices of batch `t` alone, holds
/// what the product of all batches holds for batch `t`: the same rows times
/// the same columns.
pub proof fn lemma_gemm_batch<T, M: Fn(T, T) -> T, A: Fn(T, T) -> T>(
    times: M,
    plus: A,
    lhs: Seq<T>,
    rhs: Seq<T>,
    dims: (usize, usize, usize, usize),
    t: nat,
    out: Seq<T>,
)
    requires
        t < dims.0,
        lhs.len() == dims.0 * dims.1 * dims.3,
        rhs.len() == dims.0 * dims.3 * dims.2,
        matmul_of(
            times,
            plus,
            lhs.subrange(t * dims.1 * dims.3, (t + 1) * dims.1 * dims.3),
            rhs.subrange(t * dims.3 * dims.2, (t + 1) * dims.3 * dims.2),
            (1, dims.1, dims.2, dims.3),
            out,
        ),
    ensures
        out.len() == dims.1 * dims.2,
        forall|c: int|
            0 <= c < out.len() ==> dot_of(
                times,
                plus,
                row_of(lhs, t as int, mid_of(c, dims.1 as nat, dims.2 as nat), dims.1 as nat, dims.3 as nat),
                column_of(rhs, t as int, right_of(c, dims.2 as nat), dims.3 as nat, dims.2 as nat),
                #[trigger] out[c],
            ),
{
    let (b, m, n, k) = dims;
    let (m, n, k) = (m as nat, n as nat, k as nat);
    let left = lhs.subrange((t * m * k) as int, ((t + 1) * m * k) as int);
    let right = rhs.subrange((t * k * n) as int, ((t + 1) * k * n) as int);
    assert(out.len() == m * n) by (nonlinear_arith)
        requires
            out.len() == 1 * m * n,
    ;
    assert(0 <= t * m * k && (t + 1) * m * k <= b * m * k && (t + 1) * m * k == t * m * k + m * k)
        by (nonlinear_arith)
        requires
            t + 1 <= b,
    ;
    assert(0 <= t * k * n && (t + 1) * k * n <= b * k * n && (t + 1) * k * n == t * k * n + k * n)
        by (nonlinear_arith)
        requires
            t + 1 <= b,
    ;
    assert forall|c: int| 0 <= c < out.len() implies dot_of(
        times,
        plus,
        row_of(lhs, t as int, mid_of(c, m, n), m, k),
        column_of(rhs, t as int, right_of(c, n), k, n),
        #[trigger] out[c],
    ) by {
        lemma_coordinates_of_flat(c, 1, m, n);
        let i = mid_of(c, m, n);
        let j = right_of(c, n);
        assert(left_of(c, m, n) == 0);
        let row = row_of(left, 0, i, m, k);
        let column = column_of(right, 0, j, k, n);
        assert(dot_of(times, plus, row, column, out[c]));
        assert forall|p: int| 0 <= p < k implies row[p] == row_of(lhs, t as int, i, m, k)[p] by {
            lemma_flat_in_range(0, i, p, 1, m, k);
            assert(flat(t as int, i, p, m, k) == t * m * k + flat(0, i, p, m, k))
                by (nonlinear_arith);
        }
        assert forall|p: int| 0 <= p < k implies column[p] == column_of(
            rhs,
            t as int,
            j,
            k,
            n,
        )[p] by {
            lemma_flat_in_range(0, p, j, 1, k, n);
            assert(flat(t as int, p, j, k, n) == t * k * n + flat(0, p, j, k, n))
                by (nonlinear_arith);
        }
        assert(row =~= row_of(lhs, t as int, i, m, k));
        assert(column =~= column_of(rhs, t as int, j, k, n));
    }
}

} // verus!
