//! The strided address model: shapes, strides, offsets and contiguity.

use crate::error::{EncodingFault, KernelError};
use vstd::arithmetic::div_mod::{lemma_fundamental_div_mod, lemma_fundamental_div_mod_converse};
use vstd::prelude::*;

verus! {

/// The number of elements a shape addresses: the product of its dimension sizes.
/// The empty shape addresses a single element.
pub open spec fn element_count(shape: Seq<usize>) -> nat
    decreases shape.len(),
{
    if shape.len() == 0 {
        1
    } else {
        element_count(shape.drop_last()) * (shape.last() as nat)
    }
}

/// A shape with a zero dimension addresses no element.
pub proof fn lemma_zero_dimension(shape: Seq<usize>, k: int)
    requires
        0 <= k < shape.len(),
        shape[k] == 0,
    ensures
        element_count(shape) == 0,
    decreases shape.len(),
{
    if k == shape.len() - 1 {
        assert(element_count(shape.drop_last()) * 0 == 0);
    } else {
        lemma_zero_dimension(shape.drop_last(), k);
        assert(0 * (shape.last() as nat) == 0);
    }
}

/// With no zero dimension, a prefix of a shape addresses at most as many
/// elements as the whole shape, and at least one.
pub proof fn lemma_prefix_count(shape: Seq<usize>, k: int)
    requires
        0 <= k <= shape.len(),
        forall|j: int| 0 <= j < shape.len() ==> shape[j] != 0,
    ensures
        1 <= element_count(shape.take(k)) <= element_count(shape),
    decreases shape.len(),
{
    if k == shape.len() {
        assert(shape.take(k) =~= shape);
        if shape.len() > 0 {
            lemma_prefix_count(shape.drop_last(), k - 1);
            assert(shape.drop_last().take(k - 1) =~= shape.drop_last());
            let c = element_count(shape.drop_last());
            let d = shape.last() as nat;
            assert(c * d >= 1) by (nonlinear_arith)
                requires
                    c >= 1,
                    d >= 1,
            ;
        }
    } else {
        lemma_prefix_count(shape.drop_last(), k);
        assert(shape.drop_last().take(k) =~= shape.take(k));
        let c = element_count(shape.drop_last());
        let d = shape.last() as nat;
        assert(c * d >= c) by (nonlinear_arith)
            requires
                d >= 1,
        ;
    }
}

/// Counts the elements of a shape, or reports that the count does not fit.
pub fn num_elements(shape: &[usize]) -> (count: Option<usize>)
    ensures
        match count {
            Some(n) => n == element_count(shape@),
            None => element_count(shape@) > usize::MAX,
        },
{
    let mut k: usize = 0;
    while k < shape.len()
        invariant
            k <= shape.len(),
            forall|j: int| 0 <= j < k ==> shape@[j] != 0,
        decreases shape.len() - k,
    {
        if shape[k] == 0 {
            proof {
                lemma_zero_dimension(shape@, k as int);
            }
            return Some(0);
        }
        k += 1;
    }
    let mut acc: usize = 1;
    let mut k: usize = 0;
    while k < shape.len()
        invariant
            k <= shape.len(),
            forall|j: int| 0 <= j < shape.len() ==> shape@[j] != 0,
            acc == element_count(shape@.take(k as int)),
        decreases shape.len() - k,
    {
        proof {
            assert(shape@.take(k + 1).drop_last() =~= shape@.take(k as int));
            lemma_prefix_count(shape@, k + 1);
        }
        match acc.checked_mul(shape[k]) {
            Some(next) => {
                acc = next;
            },
            None => {
                return None;
            },
        }
        k += 1;
    }
    proof {
        assert(shape@.take(k as int) =~= shape@);
    }
    Some(acc)
}


/// A shape addresses at least one element exactly when none of its
/// dimensions is zero.
pub proof fn lemma_count_positive(shape: Seq<usize>)
    ensures
        element_count(shape) > 0 <==> forall|j: int| 0 <= j < shape.len() ==> shape[j] != 0,
{
    if forall|j: int| 0 <= j < shape.len() ==> shape[j] != 0 {
        lemma_prefix_count(shape, shape.len() as int);
    } else {
        let j = choose|j: int| 0 <= j < shape.len() && shape[j] == 0;
        lemma_zero_dimension(shape, j);
    }
}

/// The count of a non-empty shape is its first dimension times the count of
/// the remaining ones.
pub proof fn lemma_count_split_first(shape: Seq<usize>)
    requires
        shape.len() > 0,
    ensures
        element_count(shape) == (shape[0] as nat) * element_count(shape.skip(1)),
    decreases shape.len(),
{
    let rest = shape.skip(1);
    if shape.len() == 1 {
        assert(shape.drop_last().len() == 0);
        assert(element_count(shape.drop_last()) == 1);
        assert(element_count(rest) == 1);
        assert(shape.last() == shape[0]);
        assert(element_count(shape) == 1 * (shape[0] as nat));
        assert((shape[0] as nat) * 1 == 1 * (shape[0] as nat));
    } else {
        let front = shape.drop_last();
        lemma_count_split_first(front);
        assert(front.skip(1) =~= rest.drop_last());
        let a = shape[0] as nat;
        let b = element_count(rest.drop_last());
        let c = shape.last() as nat;
        assert(rest.last() == shape.last());
        assert(element_count(front) == a * b);
        assert(element_count(rest) == b * c);
        assert(element_count(shape) == (a * b) * c);
        assert((a * b) * c == a * (b * c)) by (nonlinear_arith);
    }
}

/// The count of a shape is the count of any prefix times the count of the
/// dimensions that follow it.
pub proof fn lemma_count_split(shape: Seq<usize>, k: int)
    requires
        0 <= k <= shape.len(),
    ensures
        element_count(shape) == element_count(shape.take(k)) * element_count(shape.skip(k)),
    decreases shape.len(),
{
    if k == shape.len() {
        assert(shape.take(k) =~= shape);
        assert(shape.skip(k).len() == 0);
        assert(element_count(shape) * 1 == element_count(shape));
    } else {
        let front = shape.drop_last();
        lemma_count_split(front, k);
        assert(front.take(k) =~= shape.take(k));
        assert(front.skip(k) =~= shape.skip(k).drop_last());
        assert(shape.skip(k).last() == shape.last());
        let a = element_count(shape.take(k));
        let b = element_count(front.skip(k));
        let c = shape.last() as nat;
        assert(element_count(front) == a * b);
        assert(element_count(shape.skip(k)) == b * c);
        assert(element_count(shape) == (a * b) * c);
        assert((a * b) * c == a * (b * c)) by (nonlinear_arith);
    }
}

/// Whether a multi-index lies inside a shape.
pub open spec fn in_shape(index: Seq<usize>, shape: Seq<usize>) -> bool {
    &&& index.len() == shape.len()
    &&& forall|k: int| 0 <= k < shape.len() ==> index[k] < shape[k]
}

/// The sum of `index[k] * strides[k]` over all dimensions.
pub open spec fn weighted_sum(index: Seq<usize>, strides: Seq<usize>) -> nat
    decreases index.len(),
{
    if index.len() == 0 || strides.len() == 0 {
        0
    } else {
        weighted_sum(index.drop_last(), strides.drop_last()) + (index.last() as nat) * (
        strides.last() as nat)
    }
}

/// The position in the buffer of the element at a multi-index: the base
/// offset plus the stride-weighted sum of the index.
pub open spec fn address(index: Seq<usize>, strides: Seq<usize>, offset: usize) -> nat {
    offset as nat + weighted_sum(index, strides)
}

/// The multi-index of the element with row-major linear index `idx`: the
/// last dimension varies fastest.
pub open spec fn coordinates(idx: nat, shape: Seq<usize>) -> Seq<usize>
    decreases shape.len(),
{
    if shape.len() == 0 {
        Seq::empty()
    } else if shape.last() == 0 {
        coordinates(idx, shape.drop_last()).push(0)
    } else {
        let d = shape.last() as nat;
        coordinates(idx / d, shape.drop_last()).push((idx % d) as usize)
    }
}

/// The row-major linear index of a multi-index.
pub open spec fn linear_index(index: Seq<usize>, shape: Seq<usize>) -> nat
    decreases index.len(),
{
    if index.len() == 0 || shape.len() == 0 {
        0
    } else {
        linear_index(index.drop_last(), shape.drop_last()) * (shape.last() as nat) + (
        index.last() as nat)
    }
}

/// The offset, relative to the base of a view, of the element with row-major
/// linear index `idx`.
pub open spec fn strided_offset(idx: nat, shape: Seq<usize>, strides: Seq<usize>) -> nat {
    weighted_sum(coordinates(idx, shape), strides)
}

/// The largest relative offset a view reaches: the sum of
/// `(shape[k] - 1) * strides[k]`.
pub open spec fn span(shape: Seq<usize>, strides: Seq<usize>) -> nat
    decreases shape.len(),
{
    if shape.len() == 0 || strides.len() == 0 {
        0
    } else {
        let reach: nat = if shape.last() == 0 {
            0
        } else {
            (shape.last() - 1) as nat
        };
        span(shape.drop_last(), strides.drop_last()) + reach * (strides.last() as nat)
    }
}

/// Whether strides are the canonical row-major strides of a shape: each one
/// is the product of the dimensions that follow it.
pub open spec fn row_major(shape: Seq<usize>, strides: Seq<usize>) -> bool {
    &&& strides.len() == shape.len()
    &&& forall|k: int|
        0 <= k < shape.len() ==> (#[trigger] strides[k]) as nat == element_count(
            shape.skip(k + 1),
        )
}

/// One step of the address computation: peel off the last dimension.
pub proof fn lemma_strided_offset_step(idx: nat, shape: Seq<usize>, strides: Seq<usize>)
    requires
        shape.len() == strides.len(),
        shape.len() > 0,
        shape.last() != 0,
    ensures
        strided_offset(idx, shape, strides) == strided_offset(
            idx / (shape.last() as nat),
            shape.drop_last(),
            strides.drop_last(),
        ) + (idx % (shape.last() as nat)) * (strides.last() as nat),
{
    let d = shape.last() as nat;
    let front = coordinates(idx / d, shape.drop_last());
    let index = coordinates(idx, shape);
    assert(index == front.push((idx % d) as usize));
    assert(index.drop_last() =~= front);
    assert(index.last() == (idx % d) as usize);
    assert(idx % d < d);
}

/// The multi-index of a linear index below the element count lies inside the
/// shape, and its row-major linear index is that linear index again.
pub proof fn lemma_coordinates_in_shape(idx: nat, shape: Seq<usize>)
    requires
        idx < element_count(shape),
    ensures
        in_shape(coordinates(idx, shape), shape),
        linear_index(coordinates(idx, shape), shape) == idx,
    decreases shape.len(),
{
    if shape.len() > 0 {
        let d = shape.last() as nat;
        let c = element_count(shape.drop_last());
        assert(d != 0) by (nonlinear_arith)
            requires
                idx < c * d,
        ;
        assert(idx / d < c) by (nonlinear_arith)
            requires
                idx < c * d,
                d > 0,
        ;
        lemma_coordinates_in_shape(idx / d, shape.drop_last());
        let front = coordinates(idx / d, shape.drop_last());
        let index = coordinates(idx, shape);
        assert(index == front.push((idx % d) as usize));
        assert(index.drop_last() =~= front);
        assert(idx % d < d);
        assert forall|k: int| 0 <= k < shape.len() implies index[k] < shape[k] by {
            if k < shape.len() - 1 {
                assert(index[k] == front[k]);
                assert(shape[k] == shape.drop_last()[k]);
            }
        }
        assert((idx / d) * d + idx % d == idx) by (nonlinear_arith)
            requires
                d > 0,
        ;
    }
}

/// A multi-index inside a shape has a linear index below the element count,
/// and it is the multi-index of that linear index.
pub proof fn lemma_linear_index_in_range(index: Seq<usize>, shape: Seq<usize>)
    requires
        in_shape(index, shape),
    ensures
        linear_index(index, shape) < element_count(shape),
        coordinates(linear_index(index, shape), shape) == index,
    decreases shape.len(),
{
    if shape.len() > 0 {
        let front = index.drop_last();
        let dims = shape.drop_last();
        assert(in_shape(front, dims));
        lemma_linear_index_in_range(front, dims);
        let d = shape.last() as nat;
        let i = index.last() as nat;
        let q = linear_index(front, dims);
        let c = element_count(dims);
        assert(i < d);
        assert(q * d + i < c * d) by (nonlinear_arith)
            requires
                q < c,
                i < d,
        ;
        assert((q * d + i) / d == q && (q * d + i) % d == i) by (nonlinear_arith)
            requires
                i < d,
        ;
        assert(coordinates(q * d + i, shape) =~= index);
    } else {
        assert(coordinates(0, shape) =~= index);
    }
}

/// The address of a multi-index inside a shape is at most the span.
pub proof fn lemma_weighted_sum_within_span(
    index: Seq<usize>,
    shape: Seq<usize>,
    strides: Seq<usize>,
)
    requires
        in_shape(index, shape),
        shape.len() == strides.len(),
    ensures
        weighted_sum(index, strides) <= span(shape, strides),
    decreases shape.len(),
{
    if shape.len() > 0 {
        assert(in_shape(index.drop_last(), shape.drop_last()));
        lemma_weighted_sum_within_span(index.drop_last(), shape.drop_last(), strides.drop_last());
        let i = index.last() as nat;
        let d = shape.last() as nat;
        let t = strides.last() as nat;
        assert(i < d);
        assert(i * t <= (d - 1) * t) by (nonlinear_arith)
            requires
                i <= d - 1,
        ;
    }
}

/// Every element of a view lies at most `span` past its base.
pub proof fn lemma_offset_within_span(idx: nat, shape: Seq<usize>, strides: Seq<usize>)
    requires
        shape.len() == strides.len(),
        idx < element_count(shape),
    ensures
        strided_offset(idx, shape, strides) <= span(shape, strides),
{
    lemma_coordinates_in_shape(idx, shape);
    lemma_weighted_sum_within_span(coordinates(idx, shape), shape, strides);
}

/// The span of a prefix of a view is at most the span of the whole view.
pub proof fn lemma_prefix_span(shape: Seq<usize>, strides: Seq<usize>, k: int)
    requires
        shape.len() == strides.len(),
        0 <= k <= shape.len(),
    ensures
        span(shape.take(k), strides.take(k)) <= span(shape, strides),
    decreases shape.len(),
{
    if k == shape.len() {
        assert(shape.take(k) =~= shape);
        assert(strides.take(k) =~= strides);
    } else {
        lemma_prefix_span(shape.drop_last(), strides.drop_last(), k);
        assert(shape.drop_last().take(k) =~= shape.take(k));
        assert(strides.drop_last().take(k) =~= strides.take(k));
    }
}

/// When every stride is `unit` times the row-major stride, the offset of a
/// linear index is `unit` times that index.
pub proof fn lemma_scaled_row_major(idx: nat, shape: Seq<usize>, strides: Seq<usize>, unit: nat)
    requires
        strides.len() == shape.len(),
        forall|k: int|
            0 <= k < shape.len() ==> (#[trigger] strides[k]) as nat == unit * element_count(
                shape.skip(k + 1),
            ),
        idx < element_count(shape),
    ensures
        strided_offset(idx, shape, strides) == unit * idx,
    decreases shape.len(),
{
    if shape.len() == 0 {
        assert(unit * 0 == 0);
    } else {
        let d = shape.last() as nat;
        let c = element_count(shape.drop_last());
        let dims = shape.drop_last();
        let steps = strides.drop_last();
        assert(d != 0) by (nonlinear_arith)
            requires
                idx < c * d,
        ;
        assert(idx / d < c) by (nonlinear_arith)
            requires
                idx < c * d,
                d > 0,
        ;
        assert forall|k: int| 0 <= k < dims.len() implies (#[trigger] steps[k]) as nat == (unit
            * d) * element_count(dims.skip(k + 1)) by {
            assert(steps[k] == strides[k]);
            let tail = shape.skip(k + 1);
            assert(tail.drop_last() =~= dims.skip(k + 1));
            assert(tail.last() == shape.last());
            let e = element_count(dims.skip(k + 1));
            assert(unit * (e * d) == (unit * d) * e) by (nonlinear_arith);
        }
        lemma_scaled_row_major(idx / d, dims, steps, unit * d);
        lemma_strided_offset_step(idx, shape, strides);
        assert(shape.skip(shape.len() as int).len() == 0);
        assert(strides.last() as nat == unit * 1);
        assert((unit * d) * (idx / d) + (idx % d) * (unit * 1) == unit * idx) by (nonlinear_arith)
            requires
                d > 0,
        ;
    }
}

/// On a contiguous view the strided offset of a linear index is the index
/// itself: the fast path and the strided path address the same elements.
pub proof fn lemma_row_major_identity(idx: nat, shape: Seq<usize>, strides: Seq<usize>)
    requires
        row_major(shape, strides),
        idx < element_count(shape),
    ensures
        strided_offset(idx, shape, strides) == idx,
{
    assert forall|k: int| 0 <= k < shape.len() implies (#[trigger] strides[k]) as nat == 1
        * element_count(shape.skip(k + 1)) by {}
    lemma_scaled_row_major(idx, shape, strides, 1);
}


/// The address of a prefix of a multi-index is at most that of the whole.
pub proof fn lemma_prefix_weighted_sum(index: Seq<usize>, strides: Seq<usize>, k: int)
    requires
        index.len() == strides.len(),
        0 <= k <= index.len(),
    ensures
        weighted_sum(index.take(k), strides.take(k)) <= weighted_sum(index, strides),
    decreases index.len(),
{
    if k == index.len() {
        assert(index.take(k) =~= index);
        assert(strides.take(k) =~= strides);
    } else {
        lemma_prefix_weighted_sum(index.drop_last(), strides.drop_last(), k);
        assert(index.drop_last().take(k) =~= index.take(k));
        assert(strides.drop_last().take(k) =~= strides.take(k));
    }
}

/// The logical tensor of a view: its elements in row-major order.
pub open spec fn gather<T>(data: Seq<T>, shape: Seq<usize>, strides: Seq<usize>, offset: usize) -> Seq<
    T,
> {
    Seq::new(
        element_count(shape),
        |i: int| data[offset + strided_offset(i as nat, shape, strides)],
    )
}

/// What makes a view unusable on a buffer of `len` elements, if anything:
/// ranks that differ, an empty shape, or an element outside the buffer.
pub open spec fn view_fault(shape: Seq<usize>, strides: Seq<usize>, offset: usize, len: nat) -> Option<
    EncodingFault,
> {
    if shape.len() != strides.len() {
        Some(EncodingFault::RankMismatch)
    } else if element_count(shape) == 0 {
        Some(EncodingFault::ZeroSize)
    } else if element_count(shape) > usize::MAX || offset + span(shape, strides) >= len {
        Some(EncodingFault::BufferMismatch)
    } else {
        None
    }
}

/// Every element of a usable view lies inside the buffer.
pub proof fn lemma_view_in_bounds(
    idx: nat,
    shape: Seq<usize>,
    strides: Seq<usize>,
    offset: usize,
    len: nat,
)
    requires
        view_fault(shape, strides, offset, len) is None,
        idx < element_count(shape),
    ensures
        offset + strided_offset(idx, shape, strides) < len,
{
    lemma_offset_within_span(idx, shape, strides);
}

/// The position in a buffer of the element at a multi-index:
/// `offset + sum(index[k] * strides[k])`. `None` when the ranks differ or the
/// position does not fit.
pub fn linear_offset(index: &[usize], strides: &[usize], offset: usize) -> (at: Option<usize>)
    ensures
        match at {
            Some(a) => index@.len() == strides@.len() && a == address(index@, strides@, offset),
            None => index@.len() != strides@.len() || address(index@, strides@, offset)
                > usize::MAX,
        },
{
    if index.len() != strides.len() {
        return None;
    }
    let mut acc: usize = offset;
    let mut k: usize = 0;
    while k < index.len()
        invariant
            index.len() == strides.len(),
            k <= index.len(),
            acc == offset + weighted_sum(index@.take(k as int), strides@.take(k as int)),
        decreases index.len() - k,
    {
        proof {
            assert(index@.take(k + 1).drop_last() =~= index@.take(k as int));
            assert(strides@.take(k + 1).drop_last() =~= strides@.take(k as int));
            lemma_prefix_weighted_sum(index@, strides@, k + 1);
        }
        let term = match index[k].checked_mul(strides[k]) {
            Some(t) => t,
            None => {
                return None;
            },
        };
        acc = match acc.checked_add(term) {
            Some(a) => a,
            None => {
                return None;
            },
        };
        k += 1;
    }
    proof {
        assert(index@.take(k as int) =~= index@);
        assert(strides@.take(k as int) =~= strides@);
    }
    Some(acc)
}

/// The largest relative offset that a view reaches, or `None` when it does
/// not fit.
pub fn max_span(shape: &[usize], strides: &[usize]) -> (reach: Option<usize>)
    requires
        shape@.len() == strides@.len(),
    ensures
        match reach {
            Some(m) => m == span(shape@, strides@),
            None => span(shape@, strides@) > usize::MAX,
        },
{
    let mut acc: usize = 0;
    let mut k: usize = 0;
    while k < shape.len()
        invariant
            shape.len() == strides.len(),
            k <= shape.len(),
            acc == span(shape@.take(k as int), strides@.take(k as int)),
        decreases shape.len() - k,
    {
        proof {
            assert(shape@.take(k + 1).drop_last() =~= shape@.take(k as int));
            assert(strides@.take(k + 1).drop_last() =~= strides@.take(k as int));
            lemma_prefix_span(shape@, strides@, k + 1);
        }
        let last: usize = if shape[k] == 0 {
            0
        } else {
            shape[k] - 1
        };
        let term = match last.checked_mul(strides[k]) {
            Some(t) => t,
            None => {
                return None;
            },
        };
        acc = match acc.checked_add(term) {
            Some(a) => a,
            None => {
                return None;
            },
        };
        k += 1;
    }
    proof {
        assert(shape@.take(k as int) =~= shape@);
        assert(strides@.take(k as int) =~= strides@);
    }
    Some(acc)
}

/// Checks a view against a buffer of `len` elements and returns its element
/// count.
pub fn check_view(shape: &[usize], strides: &[usize], offset: usize, len: usize) -> (checked:
    Result<usize, KernelError>)
    ensures
        match checked {
            Ok(n) => view_fault(shape@, strides@, offset, len as nat) is None && n
                == element_count(shape@),
            Err(e) => view_fault(shape@, strides@, offset, len as nat) is Some && e
                == KernelError::EncodingError(
                view_fault(shape@, strides@, offset, len as nat)->Some_0,
            ),
        },
{
    if shape.len() != strides.len() {
        return Err(KernelError::EncodingError(EncodingFault::RankMismatch));
    }
    let n = match num_elements(shape) {
        Some(n) => n,
        None => {
            return Err(KernelError::EncodingError(EncodingFault::BufferMismatch));
        },
    };
    if n == 0 {
        return Err(KernelError::EncodingError(EncodingFault::ZeroSize));
    }
    let reach = match max_span(shape, strides) {
        Some(m) => m,
        None => {
            return Err(KernelError::EncodingError(EncodingFault::BufferMismatch));
        },
    };
    match offset.checked_add(reach) {
        Some(top) => {
            if top >= len {
                Err(KernelError::EncodingError(EncodingFault::BufferMismatch))
            } else {
                Ok(n)
            }
        },
        None => Err(KernelError::EncodingError(EncodingFault::BufferMismatch)),
    }
}

/// The offset, relative to the base of the view, of the element with
/// row-major linear index `idx`, for an index below the element count of a
/// view whose span fits: one that `check_view` accepts.
pub fn strided_index(idx: usize, shape: &[usize], strides: &[usize]) -> (at: usize)
    requires
        shape@.len() == strides@.len(),
        idx < element_count(shape@),
        span(shape@, strides@) <= usize::MAX,
    ensures
        at == strided_offset(idx as nat, shape@, strides@),
{
    let ghost total = strided_offset(idx as nat, shape@, strides@);
    proof {
        lemma_offset_within_span(idx as nat, shape@, strides@);
        assert(shape@.take(shape.len() as int) =~= shape@);
        assert(strides@.take(shape.len() as int) =~= strides@);
    }
    let mut rest: usize = idx;
    let mut acc: usize = 0;
    let mut k: usize = shape.len();
    while k > 0
        invariant
            shape.len() == strides.len(),
            k <= shape.len(),
            rest < element_count(shape@.take(k as int)),
            acc + strided_offset(rest as nat, shape@.take(k as int), strides@.take(k as int))
                == total,
            total <= usize::MAX,
        decreases k,
    {
        let ghost dims = shape@.take(k as int);
        let ghost steps = strides@.take(k as int);
        k -= 1;
        let d = shape[k];
        proof {
            assert(dims.drop_last() =~= shape@.take(k as int));
            assert(steps.drop_last() =~= strides@.take(k as int));
            assert(dims.last() == d);
            let c = element_count(dims.drop_last());
            assert(d != 0) by (nonlinear_arith)
                requires
                    rest < c * d,
            ;
            assert((rest as nat) / (d as nat) < c) by (nonlinear_arith)
                requires
                    rest < c * d,
                    d > 0,
            ;
            lemma_strided_offset_step(rest as nat, dims, steps);
        }
        let term = (rest % d) * strides[k];
        acc = acc + term;
        rest = rest / d;
    }
    proof {
        assert(shape@.take(0).len() == 0);
        assert(coordinates(rest as nat, shape@.take(0)).len() == 0);
    }
    acc
}

/// Whether the strides are the canonical row-major strides of the shape.
/// Only then may an algorithm address elements by their linear index.
pub fn is_contiguous(shape: &[usize], strides: &[usize]) -> (yes: bool)
    ensures
        yes == row_major(shape@, strides@),
{
    if shape.len() != strides.len() {
        return false;
    }
    let mut k: usize = shape.len();
    let mut acc: usize = 1;
    proof {
        assert(shape@.skip(k as int).len() == 0);
    }
    while k > 0
        invariant
            shape.len() == strides.len(),
            k <= shape.len(),
            acc == element_count(shape@.skip(k as int)),
            forall|j: int|
                k <= j < shape.len() ==> (#[trigger] strides@[j]) as nat == element_count(
                    shape@.skip(j + 1),
                ),
        decreases k,
    {
        k -= 1;
        if strides[k] != acc {
            return false;
        }
        if k == 0 {
            return true;
        }
        proof {
            lemma_count_split_first(shape@.skip(k as int));
            assert(shape@.skip(k as int).skip(1) =~= shape@.skip(k + 1));
        }
        match shape[k].checked_mul(acc) {
            Some(next) => {
                acc = next;
            },
            None => {
                assert(strides@[k - 1] as nat != element_count(shape@.skip(k - 1 + 1)));
                return false;
            },
        }
    }
    true
}

/// The canonical row-major strides of a shape, or `None` when one of them
/// does not fit.
pub fn contiguous_strides(shape: &[usize]) -> (strides: Option<Vec<usize>>)
    ensures
        match strides {
            Some(t) => row_major(shape@, t@),
            None => exists|k: int|
                0 <= k < shape@.len() && element_count(#[trigger] shape@.skip(k + 1))
                    > usize::MAX,
        },
{
    let mut strides: Vec<usize> = Vec::new();
    let mut k: usize = 0;
    while k < shape.len()
        invariant
            k <= shape.len(),
            strides@.len() == k,
        decreases shape.len() - k,
    {
        strides.push(1);
        k += 1;
    }
    let mut acc: usize = 1;
    proof {
        assert(shape@.skip(k as int).len() == 0);
    }
    while k > 0
        invariant
            strides@.len() == shape@.len(),
            k <= shape.len(),
            acc == element_count(shape@.skip(k as int)),
            forall|j: int|
                k <= j < shape.len() ==> (#[trigger] strides@[j]) as nat == element_count(
                    shape@.skip(j + 1),
                ),
        decreases k,
    {
        k -= 1;
        strides[k] = acc;
        if k == 0 {
            return Some(strides);
        }
        proof {
            lemma_count_split_first(shape@.skip(k as int));
            assert(shape@.skip(k as int).skip(1) =~= shape@.skip(k + 1));
        }
        match shape[k].checked_mul(acc) {
            Some(next) => {
                acc = next;
            },
            None => {
                assert(element_count(shape@.skip(k - 1 + 1)) > usize::MAX);
                return None;
            },
        }
    }
    Some(strides)
}


/// On a contiguous view at offset zero the logical tensor is the start of the
/// buffer itself.
pub proof fn lemma_gather_contiguous<T>(data: Seq<T>, shape: Seq<usize>, strides: Seq<usize>)
    requires
        row_major(shape, strides),
        element_count(shape) <= data.len(),
    ensures
        gather(data, shape, strides, 0) == data.take(element_count(shape) as int),
{
    let n = element_count(shape);
    assert forall|i: int| 0 <= i < n implies gather(data, shape, strides, 0)[i] == data.take(
        n as int,
    )[i] by {
        lemma_row_major_identity(i as nat, shape, strides);
    }
    assert(gather(data, shape, strides, 0) =~= data.take(n as int));
}

/// Copies the elements of a view into a new vector in row-major order.
///
/// The contiguity of the view is tested once; a contiguous view is copied by
/// linear index, any other one element by element through its strides.
pub fn to_contiguous<T: Copy>(data: &[T], shape: &[usize], strides: &[usize], offset: usize) -> (result:
    Result<Vec<T>, KernelError>)
    ensures
        match result {
            Ok(out) => view_fault(shape@, strides@, offset, data@.len()) is None && out@ == gather(
                data@,
                shape@,
                strides@,
                offset,
            ),
            Err(e) => view_fault(shape@, strides@, offset, data@.len()) is Some && e
                == KernelError::EncodingError(
                view_fault(shape@, strides@, offset, data@.len())->Some_0,
            ),
        },
{
    let n = match check_view(shape, strides, offset, data.len()) {
        Ok(n) => n,
        Err(e) => {
            return Err(e);
        },
    };
    let fast = is_contiguous(shape, strides);
    let mut out: Vec<T> = Vec::with_capacity(n);
    let mut i: usize = 0;
    while i < n
        invariant
            view_fault(shape@, strides@, offset, data@.len()) is None,
            data@.len() == data.len(),
            n == element_count(shape@),
            fast == row_major(shape@, strides@),
            i <= n,
            out@.len() == i,
            forall|j: int|
                0 <= j < i ==> out@[j] == data@[offset + strided_offset(
                    j as nat,
                    shape@,
                    strides@,
                )],
        decreases n - i,
    {
        proof {
            lemma_view_in_bounds(i as nat, shape@, strides@, offset, data@.len());
            if fast {
                lemma_row_major_identity(i as nat, shape@, strides@);
            }
        }
        let at = if fast {
            offset + i
        } else {
            offset + strided_index(i, shape, strides)
        };
        out.push(data[at]);
        i += 1;
    }
    proof {
        assert(out@ =~= gather(data@, shape@, strides@, offset));
    }
    Ok(out)
}


/// The offset of an element of batch `t` is `t` batch strides plus the offset
/// of the element inside its batch: the leading stride and the rest of the
/// view address independently.
pub proof fn lemma_leading_stride(
    batch: usize,
    inner: Seq<usize>,
    strides: Seq<usize>,
    t: nat,
    idx: nat,
)
    requires
        strides.len() == inner.len() + 1,
        t < batch,
        idx < element_count(inner),
    ensures
        strided_offset(t * element_count(inner) + idx, seq![batch] + inner, strides) == t * (
        strides[0] as nat) + strided_offset(idx, inner, strides.skip(1)),
    decreases inner.len(),
{
    let shape = seq![batch] + inner;
    let steps = strides.skip(1);
    if inner.len() == 0 {
        assert(shape =~= seq![batch]);
        assert(shape.drop_last().len() == 0);
        assert(element_count(inner) == 1);
        assert(t * 1 + idx == t) by (nonlinear_arith)
            requires
                idx == 0,
        ;
        lemma_strided_offset_step(t, shape, strides);
        assert(coordinates(t / (batch as nat), shape.drop_last()).len() == 0);
        assert(coordinates(idx, inner).len() == 0);
        assert(t % (batch as nat) == t) by (nonlinear_arith)
            requires
                t < batch,
        ;
    } else {
        let d = inner.last() as nat;
        let c = element_count(inner.drop_last());
        let i = t * element_count(inner) + idx;
        assert(d != 0) by (nonlinear_arith)
            requires
                idx < c * d,
        ;
        assert(idx / d < c) by (nonlinear_arith)
            requires
                idx < c * d,
                d > 0,
        ;
        assert(shape.drop_last() =~= seq![batch] + inner.drop_last());
        assert(shape.last() == inner.last());
        assert(strides.drop_last().skip(1) =~= steps.drop_last());
        assert(strides.last() == steps.last());
        assert(strides.drop_last()[0] == strides[0]);
        lemma_leading_stride(batch, inner.drop_last(), strides.drop_last(), t, idx / d);
        lemma_strided_offset_step(i, shape, strides);
        lemma_strided_offset_step(idx, inner, steps);
        assert(i == (t * c) * d + idx) by (nonlinear_arith)
            requires
                i == t * (c * d) + idx,
        ;
        assert(i / d == t * c + idx / d && i % d == idx % d) by (nonlinear_arith)
            requires
                i == (t * c) * d + idx,
                d > 0,
                idx >= 0,
        ;
    }
}

/// Offset and batch stride compose linearly: a view of one batch whose
/// offset is advanced by `t` batch strides holds the elements of batch `t`
/// of the view of all batches.
pub proof fn lemma_batch_offset<T>(
    data: Seq<T>,
    batch: usize,
    inner: Seq<usize>,
    strides: Seq<usize>,
    offset: usize,
    t: nat,
)
    requires
        strides.len() == inner.len() + 1,
        t < batch,
        offset + t * strides[0] <= usize::MAX,
    ensures
        element_count(seq![batch] + inner) == batch * element_count(inner),
        element_count(seq![1usize] + inner) == element_count(inner),
        gather(data, seq![1usize] + inner, strides, (offset + t * strides[0]) as usize) == gather(
            data,
            seq![batch] + inner,
            strides,
            offset,
        ).subrange((t * element_count(inner)) as int, ((t + 1) * element_count(inner)) as int),
{
    let c = element_count(inner);
    let one = seq![1usize] + inner;
    let all = seq![batch] + inner;
    lemma_count_split_first(one);
    lemma_count_split_first(all);
    assert(one.skip(1) =~= inner);
    assert(all.skip(1) =~= inner);
    assert(1 * c == c);
    assert(0 <= t * c && (t + 1) * c <= batch * c) by (nonlinear_arith)
        requires
            t + 1 <= batch,
            c >= 0,
    ;
    assert((t + 1) * c == t * c + c) by (nonlinear_arith);
    let moved = (offset + t * strides[0]) as usize;
    let single = gather(data, one, strides, moved);
    let slice = gather(data, all, strides, offset).subrange((t * c) as int, ((t + 1) * c) as int);
    assert forall|i: int| 0 <= i < c implies single[i] == slice[i] by {
        lemma_leading_stride(1, inner, strides, 0, i as nat);
        lemma_leading_stride(batch, inner, strides, t, i as nat);
        assert(0 * c + i == i) by (nonlinear_arith);
        assert(0 * (strides[0] as nat) == 0) by (nonlinear_arith);
    }
    assert(single =~= slice);
}

/// The flat position of element `(l, d, r)` in a row-major tensor of three
/// blocks `[_, dim_size, right]`.
pub open spec fn flat(l: int, d: int, r: int, dim_size: nat, right: nat) -> int {
    (l * dim_size + d) * right + r
}

/// The left coordinate of flat position `c` in a tensor of three blocks
/// `[_, dim_size, right]`.
pub open spec fn left_of(c: int, dim_size: nat, right: nat) -> int {
    (c / (right as int)) / (dim_size as int)
}

/// The middle coordinate of flat position `c`.
pub open spec fn mid_of(c: int, dim_size: nat, right: nat) -> int {
    (c / (right as int)) % (dim_size as int)
}

/// The right coordinate of flat position `c`.
pub open spec fn right_of(c: int, right: nat) -> int {
    c % (right as int)
}

/// The three coordinates of a flat position are the ones it was built from.
pub proof fn lemma_flat_coordinates(l: int, d: int, r: int, dim_size: nat, right: nat)
    requires
        0 <= l,
        0 <= d < dim_size,
        0 <= r < right,
    ensures
        left_of(flat(l, d, r, dim_size, right), dim_size, right) == l,
        mid_of(flat(l, d, r, dim_size, right), dim_size, right) == d,
        right_of(flat(l, d, r, dim_size, right), right) == r,
{
    let q = l * dim_size + d;
    lemma_fundamental_div_mod_converse(q * right + r, right as int, q, r);
    lemma_fundamental_div_mod_converse(q, dim_size as int, l, d);
}

/// A flat position inside `[left, dim_size, right]` has coordinates inside
/// the three blocks, and is the flat position of its coordinates.
pub proof fn lemma_coordinates_of_flat(c: int, left: nat, dim_size: nat, right: nat)
    requires
        0 <= c < left * dim_size * right,
    ensures
        0 <= left_of(c, dim_size, right) < left,
        0 <= mid_of(c, dim_size, right) < dim_size,
        0 <= right_of(c, right) < right,
        flat(
            left_of(c, dim_size, right),
            mid_of(c, dim_size, right),
            right_of(c, right),
            dim_size,
            right,
        ) == c,
{
    assert(right > 0 && dim_size > 0) by (nonlinear_arith)
        requires
            0 <= c < left * dim_size * right,
    ;
    let q = c / (right as int);
    lemma_fundamental_div_mod(c, right as int);
    lemma_fundamental_div_mod(q, dim_size as int);
    assert(0 <= q < left * dim_size) by (nonlinear_arith)
        requires
            0 <= c < left * dim_size * right,
            right > 0,
            q == c / (right as int),
    ;
    assert(0 <= q / (dim_size as int) < left) by (nonlinear_arith)
        requires
            0 <= q < left * dim_size,
            dim_size > 0,
    ;
    let l = q / (dim_size as int);
    let d = q % (dim_size as int);
    assert(l * dim_size + d == q) by (nonlinear_arith)
        requires
            q == (dim_size as int) * l + d,
    ;
    assert((l * dim_size + d) * right + c % (right as int) == c) by (nonlinear_arith)
        requires
            l * dim_size + d == q,
            c == (right as int) * q + c % (right as int),
    ;
}

/// The flat position of coordinates inside the three blocks lies inside the
/// tensor.
pub proof fn lemma_flat_in_range(l: int, d: int, r: int, left: nat, dim_size: nat, right: nat)
    requires
        0 <= l < left,
        0 <= d < dim_size,
        0 <= r < right,
    ensures
        0 <= l * dim_size + d < left * dim_size,
        0 <= flat(l, d, r, dim_size, right) < left * dim_size * right,
{
    assert(0 <= l * dim_size + d < left * dim_size) by (nonlinear_arith)
        requires
            0 <= l < left,
            0 <= d < dim_size,
    ;
    let q = l * dim_size + d;
    let n = left * dim_size;
    assert(0 <= q * right + r < n * right) by (nonlinear_arith)
        requires
            0 <= q < n,
            0 <= r < right,
    ;
}

} // verus!
