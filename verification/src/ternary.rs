//! Conditional select: `output[i] = left[i] if cond[i] != 0 else right[i]`.

use crate::error::{EncodingFault, KernelError};
use crate::layout::{check_view, element_count, gather, to_contiguous, view_fault};
use vstd::prelude::*;

verus! {

/// The elementwise choice between two tensors: the element of `left` where
/// the condition is non-zero, the element of `right` where it is zero.
pub open spec fn where_of<T>(cond: Seq<u8>, left: Seq<T>, right: Seq<T>) -> Seq<T> {
    Seq::new(
        cond.len(),
        |i: int|
            if cond[i] != 0 {
                left[i]
            } else {
                right[i]
            },
    )
}

/// The first fault among the views of the condition, the left operand and
/// the right operand, in that order.
pub open spec fn where_fault(
    shape: Seq<usize>,
    cond_len: nat,
    cond_layout: (Seq<usize>, usize),
    left_len: nat,
    left_layout: (Seq<usize>, usize),
    right_len: nat,
    right_layout: (Seq<usize>, usize),
) -> Option<EncodingFault> {
    if view_fault(shape, cond_layout.0, cond_layout.1, cond_len) is Some {
        view_fault(shape, cond_layout.0, cond_layout.1, cond_len)
    } else if view_fault(shape, left_layout.0, left_layout.1, left_len) is Some {
        view_fault(shape, left_layout.0, left_layout.1, left_len)
    } else {
        view_fault(shape, right_layout.0, right_layout.1, right_len)
    }
}

/// What makes a conditional select unusable when its output is as long as
/// the condition buffer: a fault of one of the three views, or more elements
/// in the shape than the output holds.
pub open spec fn where_output_fault(
    shape: Seq<usize>,
    cond_len: nat,
    cond_layout: (Seq<usize>, usize),
    left_len: nat,
    left_layout: (Seq<usize>, usize),
    right_len: nat,
    right_layout: (Seq<usize>, usize),
) -> Option<EncodingFault> {
    if where_fault(shape, cond_len, cond_layout, left_len, left_layout, right_len, right_layout)
        is Some {
        where_fault(shape, cond_len, cond_layout, left_len, left_layout, right_len, right_layout)
    } else if element_count(shape) > cond_len {
        Some(EncodingFault::BufferMismatch)
    } else {
        None
    }
}

/// Checks the three views of a conditional select against their buffers,
/// and gives the number of elements to write.
pub fn plan_where_cond(
    shape: &[usize],
    cond_len: usize,
    cond_layout: (&[usize], usize),
    left_len: usize,
    left_layout: (&[usize], usize),
    right_len: usize,
    right_layout: (&[usize], usize),
) -> (result: Result<usize, KernelError>)
    ensures
        match result {
            Ok(n) => where_fault(
                shape@,
                cond_len as nat,
                (cond_layout.0@, cond_layout.1),
                left_len as nat,
                (left_layout.0@, left_layout.1),
                right_len as nat,
                (right_layout.0@, right_layout.1),
            ) is None && n == element_count(shape@),
            Err(e) => where_fault(
                shape@,
                cond_len as nat,
                (cond_layout.0@, cond_layout.1),
                left_len as nat,
                (left_layout.0@, left_layout.1),
                right_len as nat,
                (right_layout.0@, right_layout.1),
            ) is Some && e == KernelError::EncodingError(
                where_fault(
                    shape@,
                    cond_len as nat,
                    (cond_layout.0@, cond_layout.1),
                    left_len as nat,
                    (left_layout.0@, left_layout.1),
                    right_len as nat,
                    (right_layout.0@, right_layout.1),
                )->Some_0,
            ),
        },
{
    let n = match check_view(shape, cond_layout.0, cond_layout.1, cond_len) {
        Ok(n) => n,
        Err(e) => {
            return Err(e);
        },
    };
    match check_view(shape, left_layout.0, left_layout.1, left_len) {
        Ok(_) => {},
        Err(e) => {
            return Err(e);
        },
    }
    match check_view(shape, right_layout.0, right_layout.1, right_len) {
        Ok(_) => Ok(n),
        Err(e) => Err(e),
    }
}

/// Chooses elementwise between two tensors by a condition tensor.
///
/// The three operands share the iteration shape, and each is addressed
/// through its own strides and offset, given as a pair. The output is as
/// long as the condition buffer: a new buffer, of which the first elements,
/// one for each element of the shape in row-major order, are written with
/// the chosen elements. The elements after them are never written and hold
/// the default value of the element type.
pub fn run_where_cond<T: Copy + Default>(
    shape: &[usize],
    cond: &[u8],
    cond_layout: (Vec<usize>, usize),
    left_true: &[T],
    left_layout: (Vec<usize>, usize),
    right_false: &[T],
    right_layout: (Vec<usize>, usize),
) -> (result: Result<Vec<T>, KernelError>)
    ensures
        match result {
            Ok(out) => {
                &&& where_output_fault(
                    shape@,
                    cond@.len(),
                    (cond_layout.0@, cond_layout.1),
                    left_true@.len(),
                    (left_layout.0@, left_layout.1),
                    right_false@.len(),
                    (right_layout.0@, right_layout.1),
                ) is None
                &&& out@.len() == cond@.len()
                &&& forall|p: int|
                    0 <= p < element_count(shape@) ==> #[trigger] out@[p] == where_of(
                        gather(cond@, shape@, cond_layout.0@, cond_layout.1),
                        gather(left_true@, shape@, left_layout.0@, left_layout.1),
                        gather(right_false@, shape@, right_layout.0@, right_layout.1),
                    )[p]
                &&& forall|i: int|
                    element_count(shape@) <= i < cond@.len() ==> call_ensures(
                        T::default,
                        (),
                        #[trigger] out@[i],
                    )
            },
            Err(e) => where_output_fault(
                shape@,
                cond@.len(),
                (cond_layout.0@, cond_layout.1),
                left_true@.len(),
                (left_layout.0@, left_layout.1),
                right_false@.len(),
                (right_layout.0@, right_layout.1),
            ) is Some && e == KernelError::EncodingError(
                where_output_fault(
                    shape@,
                    cond@.len(),
                    (cond_layout.0@, cond_layout.1),
                    left_true@.len(),
                    (left_layout.0@, left_layout.1),
                    right_false@.len(),
                    (right_layout.0@, right_layout.1),
                )->Some_0,
            ),
        },
{
    let chooser = match to_contiguous(cond, shape, cond_layout.0.as_slice(), cond_layout.1) {
        Ok(flat) => flat,
        Err(e) => {
            return Err(e);
        },
    };
    let left = match to_contiguous(left_true, shape, left_layout.0.as_slice(), left_layout.1) {
        Ok(flat) => flat,
        Err(e) => {
            return Err(e);
        },
    };
    let right = match to_contiguous(right_false, shape, right_layout.0.as_slice(), right_layout.1) {
        Ok(flat) => flat,
        Err(e) => {
            return Err(e);
        },
    };
    let n = chooser.len();
    let length = cond.len();
    if n > length {
        return Err(KernelError::EncodingError(EncodingFault::BufferMismatch));
    }
    let mut out: Vec<T> = Vec::with_capacity(length);
    let mut i: usize = 0;
    while i < length
        invariant
            i <= length,
            n <= length,
            n == chooser@.len(),
            n == left@.len(),
            n == right@.len(),
            out@.len() == i,
            forall|h: int|
                0 <= h < i && h < n ==> #[trigger] out@[h] == (if chooser@[h] != 0 {
                    left@[h]
                } else {
                    right@[h]
                }),
            forall|h: int| n <= h < i ==> call_ensures(T::default, (), #[trigger] out@[h]),
        decreases length - i,
    {
        let picked = if i >= n {
            T::default()
        } else if chooser[i] != 0 {
            left[i]
        } else {
            right[i]
        };
        out.push(picked);
        i += 1;
    }
    Ok(out)
}

} // verus!
