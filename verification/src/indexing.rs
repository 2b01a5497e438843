//! Index-select (gather) and index-add (scatter-accumulate) along one
//! dimension.
//!
//! The selection dimension `dim` splits a shape into a left block, the
//! dimension itself and a right block, so that a tensor reads as
//! `[left, dim_size, right]`. Index values outside `[0, dim_size)` are
//! refused, never clamped.

use crate::error::{EncodingFault, KernelError};
use crate::layout::{
    element_count,
    flat,
    left_of,
    lemma_coordinates_of_flat,
    lemma_count_positive,
    lemma_count_split,
    lemma_count_split_first,
    lemma_flat_coordinates,
    lemma_flat_in_range,
    mid_of,
    num_elements,
    right_of,
};
use vstd::prelude::*;
use vstd::slice::slice_subrange;

verus! {

/// The number of elements in the block left of dimension `dim`.
pub open spec fn left_size(shape: Seq<usize>, dim: int) -> nat {
    element_count(shape.take(dim))
}

/// The number of elements in the block right of dimension `dim`.
pub open spec fn right_size(shape: Seq<usize>, dim: int) -> nat {
    element_count(shape.skip(dim + 1))
}

/// Whether every index value lies in `[0, dim_size)`.
pub open spec fn ids_in_range(ids: Seq<u32>, dim_size: nat) -> bool {
    forall|j: int| 0 <= j < ids.len() ==> (#[trigger] ids[j]) < dim_size
}

/// The result of an index-select on an embedding `[left, dim_size, right]`:
/// `output[l, j, r] = embedding[l, ids[j], r]`.
pub open spec fn select_of<T>(
    embedding: Seq<T>,
    left: nat,
    dim_size: nat,
    right: nat,
    ids: Seq<u32>,
) -> Seq<T> {
    Seq::new(
        left * ids.len() * right,
        |i: int|
            embedding[flat(
                left_of(i, ids.len(), right),
                ids[mid_of(i, ids.len(), right)] as int,
                right_of(i, right),
                dim_size,
                right,
            )],
    )
}

/// A shape splits at `dim` into its left block, the dimension and its right
/// block, and none of the three exceeds the whole count when that is
/// positive.
pub proof fn lemma_split_at_dim(shape: Seq<usize>, dim: int)
    requires
        0 <= dim < shape.len(),
    ensures
        element_count(shape) == left_size(shape, dim) * (shape[dim] as nat) * right_size(
            shape,
            dim,
        ),
        element_count(shape) > 0 ==> 1 <= left_size(shape, dim) <= element_count(shape) && 1
            <= right_size(shape, dim) <= element_count(shape),
{
    lemma_count_split(shape, dim);
    lemma_count_split_first(shape.skip(dim));
    assert(shape.skip(dim).skip(1) =~= shape.skip(dim + 1));
    let a = left_size(shape, dim);
    let d = shape[dim] as nat;
    let b = right_size(shape, dim);
    assert(a * (d * b) == a * d * b) by (nonlinear_arith);
    if element_count(shape) > 0 {
        lemma_count_positive(shape);
        lemma_count_positive(shape.take(dim));
        lemma_count_positive(shape.skip(dim + 1));
        assert(a >= 1 && b >= 1 && d >= 1);
        assert(a <= a * d * b && b <= a * d * b) by (nonlinear_arith)
            requires
                a >= 1,
                b >= 1,
                d >= 1,
        ;
    }
}

/// What makes an index-select request unusable, if anything.
pub open spec fn select_fault(len: nat, shape: Seq<usize>, ids: Seq<u32>, dim: int) -> Option<
    EncodingFault,
> {
    if dim >= shape.len() {
        Some(EncodingFault::IndexOutOfRange)
    } else if ids.len() == 0 || element_count(shape) == 0 {
        Some(EncodingFault::ZeroSize)
    } else if element_count(shape) > len {
        Some(EncodingFault::BufferMismatch)
    } else if !ids_in_range(ids, shape[dim] as nat) {
        Some(EncodingFault::IndexOutOfRange)
    } else if left_size(shape, dim) * ids.len() * right_size(shape, dim) > usize::MAX {
        Some(EncodingFault::BufferMismatch)
    } else {
        None
    }
}

/// Whether every index value lies below `dim_size`.
fn check_ids(ids: &[u32], dim_size: usize) -> (ok: bool)
    ensures
        ok == ids_in_range(ids@, dim_size as nat),
{
    let mut j: usize = 0;
    while j < ids.len()
        invariant
            j <= ids.len(),
            forall|h: int| 0 <= h < j ==> (#[trigger] ids@[h]) < dim_size,
        decreases ids.len() - j,
    {
        if ids[j] as usize >= dim_size {
            return false;
        }
        j += 1;
    }
    true
}

/// The sizes that an index-select or an index-add works with: the three
/// blocks of the shape around the selection dimension, and the number of
/// elements that are selected or added.
#[derive(Clone, Copy, Debug, PartialEq, Eq, Structural)]
pub struct Selection {
    pub left: usize,
    pub dim_size: usize,
    pub right: usize,
    pub total: usize,
}

/// Whether a selection holds the sizes of `shape` around `dim` for `count`
/// index values.
pub open spec fn selects(plan: Selection, shape: Seq<usize>, count: nat, dim: int) -> bool {
    &&& plan.left == left_size(shape, dim)
    &&& plan.dim_size == shape[dim]
    &&& plan.right == right_size(shape, dim)
    &&& plan.total == left_size(shape, dim) * count * right_size(shape, dim)
}

/// Splits a shape around `dim`: the left block, the dimension, the right
/// block and the whole count.
fn blocks_of(shape: &[usize], count: usize, dim: usize) -> (result: Result<
    (usize, usize, usize, usize),
    KernelError,
>)
    ensures
        match result {
            Ok(blocks) => {
                &&& dim < shape@.len()
                &&& count > 0
                &&& blocks.0 == left_size(shape@, dim as int)
                &&& blocks.1 == shape@[dim as int]
                &&& blocks.2 == right_size(shape@, dim as int)
                &&& blocks.3 == element_count(shape@)
                &&& blocks.3 == blocks.0 * blocks.1 * blocks.2
                &&& blocks.0 >= 1 && blocks.1 >= 1 && blocks.2 >= 1 && blocks.3 >= 1
            },
            Err(e) => if dim >= shape@.len() {
                e == KernelError::EncodingError(EncodingFault::IndexOutOfRange)
            } else if count == 0 || element_count(shape@) == 0 {
                e == KernelError::EncodingError(EncodingFault::ZeroSize)
            } else {
                element_count(shape@) > usize::MAX && e == KernelError::EncodingError(
                    EncodingFault::BufferMismatch,
                )
            },
        },
{
    if dim >= shape.len() {
        return Err(KernelError::EncodingError(EncodingFault::IndexOutOfRange));
    }
    if count == 0 {
        return Err(KernelError::EncodingError(EncodingFault::ZeroSize));
    }
    let n = match num_elements(shape) {
        Some(n) => n,
        None => {
            return Err(KernelError::EncodingError(EncodingFault::BufferMismatch));
        },
    };
    if n == 0 {
        return Err(KernelError::EncodingError(EncodingFault::ZeroSize));
    }
    proof {
        lemma_split_at_dim(shape@, dim as int);
        lemma_count_positive(shape@);
        assert(shape@.subrange(0, dim as int) =~= shape@.take(dim as int));
        assert(shape@.subrange(dim + 1, shape@.len() as int) =~= shape@.skip(dim + 1));
    }
    let left = match num_elements(slice_subrange(shape, 0, dim)) {
        Some(left) => left,
        None => {
            return Err(KernelError::EncodingError(EncodingFault::BufferMismatch));
        },
    };
    let right = match num_elements(slice_subrange(shape, dim + 1, shape.len())) {
        Some(right) => right,
        None => {
            return Err(KernelError::EncodingError(EncodingFault::BufferMismatch));
        },
    };
    Ok((left, shape[dim], right, n))
}

/// `left * count * right`, or `None` when it does not fit.
fn selected_count(left: usize, count: usize, right: usize) -> (total: Option<usize>)
    requires
        right >= 1,
    ensures
        match total {
            Some(t) => t == left * count * right,
            None => left * count * right > usize::MAX,
        },
{
    let rows = match left.checked_mul(count) {
        Some(rows) => rows,
        None => {
            proof {
                assert(left * count * right >= left * count) by (nonlinear_arith)
                    requires
                        right >= 1,
                ;
            }
            return None;
        },
    };
    rows.checked_mul(right)
}

/// Checks an index-select request against an embedding buffer of `len`
/// elements, and gives the sizes to work with.
pub fn plan_index_select(len: usize, shape: &[usize], ids: &[u32], dim: usize) -> (result: Result<
    Selection,
    KernelError,
>)
    ensures
        match result {
            Ok(plan) => select_fault(len as nat, shape@, ids@, dim as int) is None && selects(
                plan,
                shape@,
                ids@.len(),
                dim as int,
            ),
            Err(e) => select_fault(len as nat, shape@, ids@, dim as int) is Some && e
                == KernelError::EncodingError(
                select_fault(len as nat, shape@, ids@, dim as int)->Some_0,
            ),
        },
{
    let (left, dim_size, right, n) = match blocks_of(shape, ids.len(), dim) {
        Ok(blocks) => blocks,
        Err(e) => {
            return Err(e);
        },
    };
    if n > len {
        return Err(KernelError::EncodingError(EncodingFault::BufferMismatch));
    }
    if !check_ids(ids, dim_size) {
        return Err(KernelError::EncodingError(EncodingFault::IndexOutOfRange));
    }
    match selected_count(left, ids.len(), right) {
        Some(total) => Ok(Selection { left, dim_size, right, total }),
        None => Err(KernelError::EncodingError(EncodingFault::BufferMismatch)),
    }
}

/// Gathers slices of an embedding along dimension `dim`:
/// `output[l, j, r] = embedding[l, ids[j], r]`, so that the output has
/// `ids.len()` slices along that dimension.
pub fn run_index_select<T: Copy>(embeddings: &[T], shape: &[usize], ids: &[u32], dim: usize) -> (result:
    Result<Vec<T>, KernelError>)
    ensures
        match result {
            Ok(out) => select_fault(embeddings@.len(), shape@, ids@, dim as int) is None && out@
                == select_of(
                embeddings@,
                left_size(shape@, dim as int),
                shape@[dim as int] as nat,
                right_size(shape@, dim as int),
                ids@,
            ),
            Err(e) => select_fault(embeddings@.len(), shape@, ids@, dim as int) is Some && e
                == KernelError::EncodingError(
                select_fault(embeddings@.len(), shape@, ids@, dim as int)->Some_0,
            ),
        },
{
    let plan = match plan_index_select(embeddings.len(), shape, ids, dim) {
        Ok(plan) => plan,
        Err(e) => {
            return Err(e);
        },
    };
    let left = plan.left;
    let dim_size = plan.dim_size;
    let right = plan.right;
    let total = plan.total;
    let count = ids.len();
    let ghost n = element_count(shape@);
    proof {
        lemma_split_at_dim(shape@, dim as int);
    }
    let mut out: Vec<T> = Vec::with_capacity(total);
    let mut i: usize = 0;
    while i < total
        invariant
            i <= total,
            total == left * count * right,
            count == ids@.len(),
            n == left * dim_size * right,
            right >= 1,
            n <= embeddings@.len(),
            embeddings@.len() == embeddings.len(),
            ids_in_range(ids@, dim_size as nat),
            out@.len() == i,
            forall|h: int|
                0 <= h < i ==> out@[h] == embeddings@[flat(
                    left_of(h, count as nat, right as nat),
                    ids@[mid_of(h, count as nat, right as nat)] as int,
                    right_of(h, right as nat),
                    dim_size as nat,
                    right as nat,
                )],
        decreases total - i,
    {
        proof {
            lemma_coordinates_of_flat(i as int, left as nat, count as nat, right as nat);
        }
        let q = i / right;
        let l = q / count;
        let j = q % count;
        let r = i % right;
        let d = ids[j] as usize;
        proof {
            assert(ids@[j as int] < dim_size);
            lemma_flat_in_range(
                l as int,
                d as int,
                r as int,
                left as nat,
                dim_size as nat,
                right as nat,
            );
            let m = l * dim_size + d;
            assert(0 <= l * dim_size <= m);
            assert(m <= m * right) by (nonlinear_arith)
                requires
                    right >= 1,
                    m >= 0,
            ;
        }
        let at = (l * dim_size + d) * right + r;
        out.push(embeddings[at]);
        i += 1;
    }
    proof {
        assert(out@ =~= select_of(
            embeddings@,
            left as nat,
            dim_size as nat,
            right as nat,
            ids@,
        ));
    }
    Ok(out)
}

/// Selecting with the identity index sequence `0, 1, .., dim_size - 1`
/// reproduces the embedding.
pub proof fn lemma_select_identity<T>(
    embedding: Seq<T>,
    left: nat,
    dim_size: nat,
    right: nat,
    ids: Seq<u32>,
)
    requires
        ids.len() == dim_size,
        forall|j: int| 0 <= j < ids.len() ==> ids[j] == j,
        left * dim_size * right <= embedding.len(),
    ensures
        select_of(embedding, left, dim_size, right, ids) == embedding.take(
            (left * dim_size * right) as int,
        ),
{
    let n = left * dim_size * right;
    let selected = select_of(embedding, left, dim_size, right, ids);
    assert forall|i: int| 0 <= i < n implies selected[i] == embedding.take(n as int)[i] by {
        lemma_coordinates_of_flat(i, left, dim_size, right);
    }
    assert(selected =~= embedding.take(n as int));
}


/// `trace` holds the value of one destination element after each source
/// slice has been considered in turn: it starts at `base`, a slice `j` whose
/// index is `d` adds `addends[j]`, and any other slice leaves it unchanged.
pub open spec fn scatter_trace<T, P: Fn(T, T) -> T>(
    plus: P,
    base: T,
    ids: Seq<u32>,
    d: int,
    addends: Seq<T>,
    trace: Seq<T>,
) -> bool {
    &&& trace.len() == ids.len() + 1
    &&& trace[0] == base
    &&& forall|j: int|
        1 <= j <= ids.len() ==> if ids[j - 1] == d {
            call_ensures(plus, (trace[j - 1], addends[j - 1]), #[trigger] trace[j])
        } else {
            trace[j] == trace[j - 1]
        }
}

/// `total` is `base` plus every `addends[j]` whose index `ids[j]` is `d`,
/// added in the order of `j`.
pub open spec fn accumulates_to<T, P: Fn(T, T) -> T>(
    plus: P,
    base: T,
    ids: Seq<u32>,
    d: int,
    addends: Seq<T>,
    total: T,
) -> bool {
    exists|trace: Seq<T>| #[trigger]
        scatter_trace(plus, base, ids, d, addends, trace) && trace.last() == total
}

/// The source elements that may reach destination position `c`: one from
/// each source slice, at the same left and right coordinates as `c`.
pub open spec fn addends_at<T>(src: Seq<T>, c: int, dim_size: nat, right: nat, count: nat) -> Seq<
    T,
> {
    Seq::new(
        count,
        |j: int| src[flat(left_of(c, dim_size, right), j, right_of(c, right), count, right)],
    )
}

/// The result of an index-add into a destination `[left, dim_size, right]`:
/// `out[l, ids[j], r]` is `dst[l, ids[j], r]` plus `src[l, j, r]`, summed
/// over every `j` with the same destination.
pub open spec fn scatter_adds<T, P: Fn(T, T) -> T>(
    plus: P,
    dst: Seq<T>,
    src: Seq<T>,
    dim_size: nat,
    right: nat,
    ids: Seq<u32>,
    out: Seq<T>,
) -> bool {
    &&& out.len() == dst.len()
    &&& forall|c: int|
        0 <= c < dst.len() ==> accumulates_to(
            plus,
            dst[c],
            ids,
            mid_of(c, dim_size, right),
            addends_at(src, c, dim_size, right, ids.len()),
            #[trigger] out[c],
        )
}

/// What makes an index-add request unusable, if anything.
pub open spec fn scatter_fault(
    dst_len: nat,
    shape: Seq<usize>,
    ids: Seq<u32>,
    src_len: nat,
    dim: int,
) -> Option<EncodingFault> {
    if dim >= shape.len() {
        Some(EncodingFault::IndexOutOfRange)
    } else if ids.len() == 0 || element_count(shape) == 0 {
        Some(EncodingFault::ZeroSize)
    } else if element_count(shape) != dst_len {
        Some(EncodingFault::BufferMismatch)
    } else if !ids_in_range(ids, shape[dim] as nat) {
        Some(EncodingFault::IndexOutOfRange)
    } else if left_size(shape, dim) * ids.len() * right_size(shape, dim) != src_len {
        Some(EncodingFault::BufferMismatch)
    } else {
        None
    }
}

/// Checks an index-add request against a destination of `dst_len` and a
/// source of `src_len` elements, and gives the sizes to work with.
pub fn plan_index_add(
    dst_len: usize,
    shape: &[usize],
    ids: &[u32],
    src_len: usize,
    dim: usize,
) -> (result: Result<Selection, KernelError>)
    ensures
        match result {
            Ok(plan) => scatter_fault(dst_len as nat, shape@, ids@, src_len as nat, dim as int)
                is None && selects(plan, shape@, ids@.len(), dim as int),
            Err(e) => scatter_fault(dst_len as nat, shape@, ids@, src_len as nat, dim as int)
                is Some && e == KernelError::EncodingError(
                scatter_fault(dst_len as nat, shape@, ids@, src_len as nat, dim as int)->Some_0,
            ),
        },
{
    let (left, dim_size, right, n) = match blocks_of(shape, ids.len(), dim) {
        Ok(blocks) => blocks,
        Err(e) => {
            return Err(e);
        },
    };
    if n != dst_len {
        return Err(KernelError::EncodingError(EncodingFault::BufferMismatch));
    }
    if !check_ids(ids, dim_size) {
        return Err(KernelError::EncodingError(EncodingFault::IndexOutOfRange));
    }
    match selected_count(left, ids.len(), right) {
        Some(total) => {
            if total != src_len {
                return Err(KernelError::EncodingError(EncodingFault::BufferMismatch));
            }
            Ok(Selection { left, dim_size, right, total })
        },
        None => Err(KernelError::EncodingError(EncodingFault::BufferMismatch)),
    }
}

/// Adds slices of `src` into a copy of `dst` along dimension `dim`:
/// `out[l, ids[j], r] = dst[l, ids[j], r] + src[l, j, r]`, where slices with
/// the same destination all contribute, in the order of `j`.
///
/// `dst` has the given shape, and `src` the same shape with `ids.len()`
/// slices along `dim`. Every destination element is accumulated on its own,
/// so no two additions ever race for one element.
pub fn run_index_add<T: Copy, P: Fn(T, T) -> T>(
    dst: &[T],
    shape: &[usize],
    ids: &[u32],
    src: &[T],
    dim: usize,
    plus: P,
) -> (result: Result<Vec<T>, KernelError>)
    requires
        forall|a: T, b: T| call_requires(plus, (a, b)),
    ensures
        match result {
            Ok(out) => scatter_fault(dst@.len(), shape@, ids@, src@.len(), dim as int) is None
                && scatter_adds(
                plus,
                dst@,
                src@,
                shape@[dim as int] as nat,
                right_size(shape@, dim as int),
                ids@,
                out@,
            ),
            Err(e) => scatter_fault(dst@.len(), shape@, ids@, src@.len(), dim as int) is Some && e
                == KernelError::EncodingError(
                scatter_fault(dst@.len(), shape@, ids@, src@.len(), dim as int)->Some_0,
            ),
        },
{
    let plan = match plan_index_add(dst.len(), shape, ids, src.len(), dim) {
        Ok(plan) => plan,
        Err(e) => {
            return Err(e);
        },
    };
    let left = plan.left;
    let dim_size = plan.dim_size;
    let right = plan.right;
    let count = ids.len();
    let n = dst.len();
    proof {
        lemma_split_at_dim(shape@, dim as int);
    }
    let mut out: Vec<T> = Vec::with_capacity(n);
    let mut c: usize = 0;
    while c < n
        invariant
            c <= n,
            n == dst@.len(),
            n == left * dim_size * right,
            src@.len() == left * count * right,
            src@.len() == src.len(),
            count == ids@.len(),
            count >= 1,
            right >= 1,
            out@.len() == c,
            forall|a: T, b: T| call_requires(plus, (a, b)),
            forall|h: int|
                0 <= h < c ==> accumulates_to(
                    plus,
                    dst@[h],
                    ids@,
                    mid_of(h, dim_size as nat, right as nat),
                    addends_at(src@, h, dim_size as nat, right as nat, count as nat),
                    #[trigger] out@[h],
                ),
        decreases n - c,
    {
        proof {
            lemma_coordinates_of_flat(c as int, left as nat, dim_size as nat, right as nat);
        }
        let q = c / right;
        let l = q / dim_size;
        let d = q % dim_size;
        let r = c % right;
        let ghost addends = addends_at(src@, c as int, dim_size as nat, right as nat, count as nat);
        let mut acc: T = dst[c];
        let ghost mut trace: Seq<T> = seq![acc];
        let mut j: usize = 0;
        while j < count
            invariant
                j <= count,
                count == ids@.len(),
                right >= 1,
                0 <= l < left,
                0 <= r < right,
                l == left_of(c as int, dim_size as nat, right as nat),
                r == right_of(c as int, right as nat),
                src@.len() == left * count * right,
                src@.len() == src.len(),
                addends == addends_at(src@, c as int, dim_size as nat, right as nat, count as nat),
                forall|a: T, b: T| call_requires(plus, (a, b)),
                trace.len() == j + 1,
                trace[0] == dst@[c as int],
                trace.last() == acc,
                forall|h: int|
                    1 <= h <= j ==> if ids@[h - 1] == d {
                        call_ensures(plus, (trace[h - 1], addends[h - 1]), #[trigger] trace[h])
                    } else {
                        trace[h] == trace[h - 1]
                    },
            decreases count - j,
        {
            if ids[j] as usize == d {
                proof {
                    lemma_flat_in_range(
                        l as int,
                        j as int,
                        r as int,
                        left as nat,
                        count as nat,
                        right as nat,
                    );
                    let m = l * count + j;
                    assert(0 <= l * count <= m);
                    assert(m <= m * right) by (nonlinear_arith)
                        requires
                            right >= 1,
                            m >= 0,
                    ;
                }
                let at = (l * count + j) * right + r;
                acc = plus(acc, src[at]);
            }
            j += 1;
            proof {
                trace = trace.push(acc);
            }
        }
        proof {
            assert(scatter_trace(plus, dst@[c as int], ids@, d as int, addends, trace));
        }
        out.push(acc);
        c += 1;
    }
    Ok(out)
}

/// Between two points with no slice aimed at `d`, the accumulated value does
/// not change.
proof fn lemma_trace_unchanged<T, P: Fn(T, T) -> T>(
    plus: P,
    base: T,
    ids: Seq<u32>,
    d: int,
    addends: Seq<T>,
    trace: Seq<T>,
    from: int,
    to: int,
)
    requires
        scatter_trace(plus, base, ids, d, addends, trace),
        0 <= from <= to <= ids.len(),
        forall|j: int| from <= j < to ==> ids[j] != d,
    ensures
        trace[to] == trace[from],
    decreases to - from,
{
    if from < to {
        lemma_trace_unchanged(plus, base, ids, d, addends, trace, from, to - 1);
        assert(ids[to - 1] != d);
    }
}

/// With pairwise distinct index values an index-add is an index-select
/// followed by one addition per element and a write back: the slice selected
/// from the output at `ids` is the slice selected from the destination plus
/// the source, element by element, and every destination element that no
/// index names is unchanged.
pub proof fn lemma_scatter_disjoint<T, P: Fn(T, T) -> T>(
    plus: P,
    dst: Seq<T>,
    src: Seq<T>,
    left: nat,
    dim_size: nat,
    right: nat,
    ids: Seq<u32>,
    out: Seq<T>,
)
    requires
        dst.len() == left * dim_size * right,
        src.len() == left * ids.len() * right,
        ids_in_range(ids, dim_size),
        forall|j: int, k: int| 0 <= j < k < ids.len() ==> ids[j] != ids[k],
        scatter_adds(plus, dst, src, dim_size, right, ids, out),
    ensures
        forall|s: int|
            0 <= s < src.len() ==> call_ensures(
                plus,
                (select_of(dst, left, dim_size, right, ids)[s], src[s]),
                #[trigger] select_of(out, left, dim_size, right, ids)[s],
            ),
        forall|c: int|
            0 <= c < dst.len() && (forall|j: int|
                0 <= j < ids.len() ==> ids[j] != mid_of(c, dim_size, right)) ==> #[trigger] out[c]
                == dst[c],
{
    let count = ids.len();
    assert forall|s: int| 0 <= s < src.len() implies call_ensures(
        plus,
        (select_of(dst, left, dim_size, right, ids)[s], src[s]),
        #[trigger] select_of(out, left, dim_size, right, ids)[s],
    ) by {
        lemma_coordinates_of_flat(s, left, count, right);
        let l = left_of(s, count, right);
        let j = mid_of(s, count, right);
        let r = right_of(s, right);
        let d = ids[j] as int;
        let c = flat(l, d, r, dim_size, right);
        lemma_flat_in_range(l, d, r, left, dim_size, right);
        lemma_flat_coordinates(l, d, r, dim_size, right);
        let addends = addends_at(src, c, dim_size, right, count);
        assert(addends[j] == src[s]);
        assert(accumulates_to(plus, dst[c], ids, d, addends, out[c]));
        let trace = choose|trace: Seq<T>| #[trigger]
            scatter_trace(plus, dst[c], ids, d, addends, trace) && trace.last() == out[c];
        lemma_trace_unchanged(plus, dst[c], ids, d, addends, trace, 0, j);
        lemma_trace_unchanged(plus, dst[c], ids, d, addends, trace, j + 1, count as int);
        assert(call_ensures(plus, (trace[j], addends[j]), trace[j + 1]));
    }
    assert forall|c: int|
        0 <= c < dst.len() && (forall|j: int|
            0 <= j < ids.len() ==> ids[j] != mid_of(c, dim_size, right)) implies #[trigger] out[c]
        == dst[c] by {
        let d = mid_of(c, dim_size, right);
        let addends = addends_at(src, c, dim_size, right, count);
        assert(accumulates_to(plus, dst[c], ids, d, addends, out[c]));
        let trace = choose|trace: Seq<T>| #[trigger]
            scatter_trace(plus, dst[c], ids, d, addends, trace) && trace.last() == out[c];
        lemma_trace_unchanged(plus, dst[c], ids, d, addends, trace, 0, count as int);
    }
}

/// When two source slices `j < k` are aimed at the same destination slice
/// and no other is, both contribute: the output element is the destination
/// element plus the element of slice `j`, plus the element of slice `k`.
pub proof fn lemma_scatter_repeated<T, P: Fn(T, T) -> T>(
    plus: P,
    dst: Seq<T>,
    src: Seq<T>,
    dim_size: nat,
    right: nat,
    ids: Seq<u32>,
    out: Seq<T>,
    c: int,
    j: int,
    k: int,
)
    requires
        scatter_adds(plus, dst, src, dim_size, right, ids, out),
        0 <= c < dst.len(),
        0 <= j < k < ids.len(),
        ids[j] == mid_of(c, dim_size, right),
        ids[k] == mid_of(c, dim_size, right),
        forall|h: int| 0 <= h < ids.len() && h != j && h != k ==> ids[h] != mid_of(c, dim_size, right),
    ensures
        exists|first: T|
            call_ensures(
                plus,
                (dst[c], addends_at(src, c, dim_size, right, ids.len())[j]),
                first,
            ) && call_ensures(
                plus,
                (first, addends_at(src, c, dim_size, right, ids.len())[k]),
                out[c],
            ),
{
    let d = mid_of(c, dim_size, right);
    let addends = addends_at(src, c, dim_size, right, ids.len());
    assert(accumulates_to(plus, dst[c], ids, d, addends, out[c]));
    let trace = choose|trace: Seq<T>| #[trigger]
        scatter_trace(plus, dst[c], ids, d, addends, trace) && trace.last() == out[c];
    lemma_trace_unchanged(plus, dst[c], ids, d, addends, trace, 0, j);
    lemma_trace_unchanged(plus, dst[c], ids, d, addends, trace, j + 1, k);
    lemma_trace_unchanged(plus, dst[c], ids, d, addends, trace, k + 1, ids.len() as int);
    assert(call_ensures(plus, (trace[j], addends[j]), trace[j + 1]));
    assert(call_ensures(plus, (trace[k], addends[k]), trace[k + 1]));
    let first = trace[j + 1];
    assert(call_ensures(plus, (dst[c], addends[j]), first) && call_ensures(
        plus,
        (first, addends[k]),
        out[c],
    ));
}

/// With pairwise distinct index values, an index-add into a destination
/// that holds `zero` everywhere, followed by an index-select with the same
/// index values, gives the source back, provided that adding to `zero`
/// changes nothing. The slices that no index names still hold `zero`.
pub proof fn lemma_scatter_then_select<T, P: Fn(T, T) -> T>(
    plus: P,
    zero: T,
    dst: Seq<T>,
    src: Seq<T>,
    left: nat,
    dim_size: nat,
    right: nat,
    ids: Seq<u32>,
    out: Seq<T>,
)
    requires
        dst.len() == left * dim_size * right,
        src.len() == left * ids.len() * right,
        ids_in_range(ids, dim_size),
        forall|j: int, k: int| 0 <= j < k < ids.len() ==> ids[j] != ids[k],
        forall|c: int| 0 <= c < dst.len() ==> dst[c] == zero,
        forall|x: T, y: T| call_ensures(plus, (zero, x), y) ==> y == x,
        scatter_adds(plus, dst, src, dim_size, right, ids, out),
    ensures
        select_of(out, left, dim_size, right, ids) == src,
        forall|c: int|
            0 <= c < dst.len() && (forall|j: int|
                0 <= j < ids.len() ==> ids[j] != mid_of(c, dim_size, right)) ==> #[trigger] out[c]
                == zero,
{
    lemma_scatter_disjoint(plus, dst, src, left, dim_size, right, ids, out);
    let count = ids.len();
    let selected = select_of(out, left, dim_size, right, ids);
    assert forall|s: int| 0 <= s < src.len() implies selected[s] == src[s] by {
        lemma_coordinates_of_flat(s, left, count, right);
        let l = left_of(s, count, right);
        let d = ids[mid_of(s, count, right)] as int;
        let r = right_of(s, right);
        lemma_flat_in_range(l, d, r, left, dim_size, right);
        assert(select_of(dst, left, dim_size, right, ids)[s] == zero);
        assert(call_ensures(plus, (zero, src[s]), selected[s]));
    }
    assert(selected =~= src);
}

/// Selecting one slice `d` from the output of an index-add gives, element by
/// element, the destination's slice `d` plus every source slice aimed at
/// `d`, added in the order of the source slices: contributions to one
/// destination add up, and none overwrites another.
pub proof fn lemma_scatter_row<T, P: Fn(T, T) -> T>(
    plus: P,
    dst: Seq<T>,
    src: Seq<T>,
    left: nat,
    dim_size: nat,
    right: nat,
    ids: Seq<u32>,
    out: Seq<T>,
    d: u32,
)
    requires
        dst.len() == left * dim_size * right,
        d < dim_size,
        scatter_adds(plus, dst, src, dim_size, right, ids, out),
    ensures
        select_of(out, left, dim_size, right, seq![d]).len() == left * right,
        forall|i: int|
            0 <= i < left * right ==> accumulates_to(
                plus,
                dst[flat(left_of(i, 1, right), d as int, right_of(i, right), dim_size, right)],
                ids,
                d as int,
                addends_at(
                    src,
                    flat(left_of(i, 1, right), d as int, right_of(i, right), dim_size, right),
                    dim_size,
                    right,
                    ids.len(),
                ),
                #[trigger] select_of(out, left, dim_size, right, seq![d])[i],
            ),
{
    let one = seq![d];
    let selected = select_of(out, left, dim_size, right, one);
    assert(left * 1 * right == left * right) by (nonlinear_arith);
    assert(selected.len() == left * right);
    assert forall|i: int| 0 <= i < left * right implies accumulates_to(
        plus,
        dst[flat(left_of(i, 1, right), d as int, right_of(i, right), dim_size, right)],
        ids,
        d as int,
        addends_at(
            src,
            flat(left_of(i, 1, right), d as int, right_of(i, right), dim_size, right),
            dim_size,
            right,
            ids.len(),
        ),
        #[trigger] selected[i],
    ) by {
        lemma_coordinates_of_flat(i, left, 1, right);
        let l = left_of(i, 1, right);
        let r = right_of(i, right);
        assert(mid_of(i, 1, right) == 0);
        assert(one[0] == d);
        let c = flat(l, d as int, r, dim_size, right);
        lemma_flat_in_range(l, d as int, r, left, dim_size, right);
        lemma_flat_coordinates(l, d as int, r, dim_size, right);
        assert(selected[i] == out[c]);
    }
}

} // verus!
