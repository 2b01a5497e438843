//! The elementwise operation families: unary, binary, cast and affine.
//!
//! Each family has a contiguous variant, which walks the buffers by linear
//! index, and a strided variant, which addresses every element through the
//! view's shape, strides and offset. The element arithmetic is a function
//! supplied by the caller, so every contract is stated relative to it.

use crate::error::{EncodingFault, KernelError};
use crate::layout::{element_count, gather, to_contiguous, view_fault};
use vstd::prelude::*;

verus! {

/// `output[i]` is a result of `f(input[i])`, for every `i`.
pub open spec fn maps_by<T, U, F: Fn(T) -> U>(f: F, input: Seq<T>, output: Seq<U>) -> bool {
    &&& output.len() == input.len()
    &&& forall|i: int|
        0 <= i < input.len() ==> call_ensures(f, (input[i],), #[trigger] output[i])
}

/// `output[i]` is a result of `f(left[i], right[i])`, for every `i`.
pub open spec fn zips_by<T, F: Fn(T, T) -> T>(f: F, left: Seq<T>, right: Seq<T>, output: Seq<T>) -> bool {
    &&& output.len() == left.len()
    &&& right.len() == left.len()
    &&& forall|i: int|
        0 <= i < left.len() ==> call_ensures(f, (left[i], right[i]), #[trigger] output[i])
}

/// `y` is a result of `mul * x + add`: the product is taken first, then the
/// sum.
pub open spec fn affine_of<T, M: Fn(T, T) -> T, A: Fn(T, T) -> T>(
    times: M,
    plus: A,
    mul: T,
    add: T,
    x: T,
    y: T,
) -> bool {
    exists|p: T| call_ensures(times, (mul, x), p) && call_ensures(plus, (p, add), y)
}

/// `output[i]` is a result of `mul * input[i] + add`, for every `i`.
pub open spec fn affine_maps<T, M: Fn(T, T) -> T, A: Fn(T, T) -> T>(
    times: M,
    plus: A,
    mul: T,
    add: T,
    input: Seq<T>,
    output: Seq<T>,
) -> bool {
    &&& output.len() == input.len()
    &&& forall|i: int|
        0 <= i < input.len() ==> affine_of(times, plus, mul, add, input[i], #[trigger] output[i])
}

/// A function whose result is determined by its argument.
pub open spec fn single_valued<T, U, F: Fn(T) -> U>(f: F) -> bool {
    forall|x: T, y: U, z: U| call_ensures(f, (x,), y) && call_ensures(f, (x,), z) ==> y == z
}

/// Converts every element of a contiguous buffer with `convert`.
///
/// An empty buffer is refused: a dispatch needs a non-zero problem size.
pub fn cast<T: Copy, U, F: Fn(T) -> U>(v: &[T], convert: F) -> (result: Result<Vec<U>, KernelError>)
    requires
        forall|i: int| 0 <= i < v@.len() ==> call_requires(convert, (v@[i],)),
    ensures
        match result {
            Ok(out) => v@.len() > 0 && maps_by(convert, v@, out@),
            Err(e) => v@.len() == 0 && e == KernelError::EncodingError(EncodingFault::ZeroSize),
        },
{
    if v.len() == 0 {
        return Err(KernelError::EncodingError(EncodingFault::ZeroSize));
    }
    let mut out: Vec<U> = Vec::with_capacity(v.len());
    let mut i: usize = 0;
    while i < v.len()
        invariant
            i <= v.len(),
            out@.len() == i,
            forall|j: int| 0 <= j < v@.len() ==> call_requires(convert, (v@[j],)),
            forall|j: int| 0 <= j < i ==> call_ensures(convert, (v@[j],), #[trigger] out@[j]),
        decreases v.len() - i,
    {
        let y = convert(v[i]);
        out.push(y);
        i += 1;
    }
    Ok(out)
}

/// Applies the unary `kernel` to every element of a contiguous buffer.
pub fn run<T: Copy, F: Fn(T) -> T>(v: &[T], kernel: F) -> (result: Result<Vec<T>, KernelError>)
    requires
        forall|i: int| 0 <= i < v@.len() ==> call_requires(kernel, (v@[i],)),
    ensures
        match result {
            Ok(out) => v@.len() > 0 && maps_by(kernel, v@, out@),
            Err(e) => v@.len() == 0 && e == KernelError::EncodingError(EncodingFault::ZeroSize),
        },
{
    cast(v, kernel)
}

/// `output[p]` is a result of `f(input[p])` for every `p` below the length
/// of `input`; `output` may be longer.
pub open spec fn maps_prefix<T, F: Fn(T) -> T>(f: F, input: Seq<T>, output: Seq<T>) -> bool {
    &&& input.len() <= output.len()
    &&& forall|p: int|
        0 <= p < input.len() ==> call_ensures(f, (input[p],), #[trigger] output[p])
}

/// What makes a view unusable for an operation that writes one element for
/// each element of the view into an output as long as the buffer: a fault of
/// the view, or more elements than the output holds.
pub open spec fn strided_fault(shape: Seq<usize>, strides: Seq<usize>, offset: usize, len: nat) -> Option<
    EncodingFault,
> {
    if view_fault(shape, strides, offset, len) is Some {
        view_fault(shape, strides, offset, len)
    } else if element_count(shape) > len {
        Some(EncodingFault::BufferMismatch)
    } else {
        None
    }
}

/// Applies the unary `kernel` to every element of a view, in row-major order
/// of the view.
///
/// The output starts as a copy of the buffer and is as long as the buffer.
/// Its first elements, one for each element of the view, are written with
/// the results; the elements after them stay as they were in the buffer.
pub fn run_strided<T: Copy, F: Fn(T) -> T>(
    v: &[T],
    kernel: F,
    shape: &[usize],
    strides: &[usize],
    offset: usize,
) -> (result: Result<Vec<T>, KernelError>)
    requires
        strided_fault(shape@, strides@, offset, v@.len()) is None ==> forall|p: int|
            0 <= p < element_count(shape@) ==> call_requires(
                kernel,
                (#[trigger] gather(v@, shape@, strides@, offset)[p],),
            ),
    ensures
        match result {
            Ok(out) => {
                &&& strided_fault(shape@, strides@, offset, v@.len()) is None
                &&& out@.len() == v@.len()
                &&& maps_prefix(kernel, gather(v@, shape@, strides@, offset), out@)
                &&& forall|i: int|
                    element_count(shape@) <= i < v@.len() ==> #[trigger] out@[i] == v@[i]
            },
            Err(e) => strided_fault(shape@, strides@, offset, v@.len()) is Some && e
                == KernelError::EncodingError(
                strided_fault(shape@, strides@, offset, v@.len())->Some_0,
            ),
        },
{
    let flat = match to_contiguous(v, shape, strides, offset) {
        Ok(flat) => flat,
        Err(e) => {
            return Err(e);
        },
    };
    let n = flat.len();
    if n > v.len() {
        return Err(KernelError::EncodingError(EncodingFault::BufferMismatch));
    }
    let mut out: Vec<T> = Vec::with_capacity(v.len());
    let mut i: usize = 0;
    while i < v.len()
        invariant
            i <= v.len(),
            n <= v.len(),
            n == flat@.len(),
            flat@ == gather(v@, shape@, strides@, offset),
            out@.len() == i,
            forall|p: int| 0 <= p < n ==> call_requires(kernel, (#[trigger] flat@[p],)),
            forall|p: int| 0 <= p < i && p < n ==> call_ensures(kernel, (flat@[p],), #[trigger] out@[p]),
            forall|p: int| n <= p < i ==> #[trigger] out@[p] == v@[p],
        decreases v.len() - i,
    {
        let y = if i < n {
            kernel(flat[i])
        } else {
            v[i]
        };
        out.push(y);
        i += 1;
    }
    Ok(out)
}

/// What makes two operands unusable for a binary operation, if anything.
pub open spec fn binary_fault(left: nat, right: nat) -> Option<EncodingFault> {
    if left == 0 {
        Some(EncodingFault::ZeroSize)
    } else if right != left {
        Some(EncodingFault::BufferMismatch)
    } else {
        None
    }
}

/// Applies the binary `kernel` to the elements of two contiguous buffers,
/// pair by pair. The operands must have the same element count: nothing is
/// broadcast.
pub fn run_binary<T: Copy, F: Fn(T, T) -> T>(x: &[T], y: &[T], kernel: F) -> (result: Result<
    Vec<T>,
    KernelError,
>)
    requires
        forall|i: int|
            0 <= i < x@.len() && i < y@.len() ==> call_requires(kernel, (x@[i], y@[i])),
    ensures
        match result {
            Ok(out) => binary_fault(x@.len(), y@.len()) is None && zips_by(kernel, x@, y@, out@),
            Err(e) => binary_fault(x@.len(), y@.len()) is Some && e == KernelError::EncodingError(
                binary_fault(x@.len(), y@.len())->Some_0,
            ),
        },
{
    if x.len() == 0 {
        return Err(KernelError::EncodingError(EncodingFault::ZeroSize));
    }
    if y.len() != x.len() {
        return Err(KernelError::EncodingError(EncodingFault::BufferMismatch));
    }
    let mut out: Vec<T> = Vec::with_capacity(x.len());
    let mut i: usize = 0;
    while i < x.len()
        invariant
            i <= x.len(),
            x.len() == y.len(),
            out@.len() == i,
            forall|j: int|
                0 <= j < x@.len() && j < y@.len() ==> call_requires(kernel, (x@[j], y@[j])),
            forall|j: int|
                0 <= j < i ==> call_ensures(kernel, (x@[j], y@[j]), #[trigger] out@[j]),
        decreases x.len() - i,
    {
        let z = kernel(x[i], y[i]);
        out.push(z);
        i += 1;
    }
    Ok(out)
}

/// Computes `mul * v[i] + add` for every element of a contiguous buffer.
pub fn run_affine<T: Copy, M: Fn(T, T) -> T, A: Fn(T, T) -> T>(
    v: &[T],
    mul: T,
    add: T,
    times: M,
    plus: A,
) -> (result: Result<Vec<T>, KernelError>)
    requires
        forall|i: int| 0 <= i < v@.len() ==> call_requires(times, (mul, v@[i])),
        forall|i: int, p: T|
            0 <= i < v@.len() && call_ensures(times, (mul, v@[i]), p) ==> call_requires(
                plus,
                (p, add),
            ),
    ensures
        match result {
            Ok(out) => v@.len() > 0 && affine_maps(times, plus, mul, add, v@, out@),
            Err(e) => v@.len() == 0 && e == KernelError::EncodingError(EncodingFault::ZeroSize),
        },
{
    if v.len() == 0 {
        return Err(KernelError::EncodingError(EncodingFault::ZeroSize));
    }
    let mut out: Vec<T> = Vec::with_capacity(v.len());
    let mut i: usize = 0;
    while i < v.len()
        invariant
            i <= v.len(),
            out@.len() == i,
            forall|j: int| 0 <= j < v@.len() ==> call_requires(times, (mul, v@[j])),
            forall|j: int, p: T|
                0 <= j < v@.len() && call_ensures(times, (mul, v@[j]), p) ==> call_requires(
                    plus,
                    (p, add),
                ),
            forall|j: int|
                0 <= j < i ==> affine_of(times, plus, mul, add, v@[j], #[trigger] out@[j]),
        decreases v.len() - i,
    {
        let p = times(mul, v[i]);
        let y = plus(p, add);
        out.push(y);
        i += 1;
    }
    Ok(out)
}

/// Computes `mul * x + add` for every element `x` of a view that starts at
/// the beginning of the buffer, in row-major order of the view.
pub fn run_affine_strided<T: Copy, M: Fn(T, T) -> T, A: Fn(T, T) -> T>(
    v: &[T],
    shape: &[usize],
    strides: &[usize],
    mul: T,
    add: T,
    times: M,
    plus: A,
) -> (result: Result<Vec<T>, KernelError>)
    requires
        view_fault(shape@, strides@, 0, v@.len()) is None ==> forall|i: int|
            0 <= i < element_count(shape@) ==> call_requires(
                times,
                (mul, #[trigger] gather(v@, shape@, strides@, 0)[i]),
            ),
        view_fault(shape@, strides@, 0, v@.len()) is None ==> forall|i: int, p: T|
            0 <= i < element_count(shape@) && call_ensures(
                times,
                (mul, gather(v@, shape@, strides@, 0)[i]),
                p,
            ) ==> call_requires(plus, (p, add)),
    ensures
        match result {
            Ok(out) => view_fault(shape@, strides@, 0, v@.len()) is None && affine_maps(
                times,
                plus,
                mul,
                add,
                gather(v@, shape@, strides@, 0),
                out@,
            ),
            Err(e) => view_fault(shape@, strides@, 0, v@.len()) is Some && e
                == KernelError::EncodingError(view_fault(shape@, strides@, 0, v@.len())->Some_0),
        },
{
    let flat = match to_contiguous(v, shape, strides, 0) {
        Ok(flat) => flat,
        Err(e) => {
            return Err(e);
        },
    };
    run_affine(flat.as_slice(), mul, add, times, plus)
}

/// The first fault among the views of the left and the right operand.
pub open spec fn binary_view_fault(
    shape: Seq<usize>,
    left_len: nat,
    left_strides: Seq<usize>,
    left_offset: usize,
    right_len: nat,
    right_strides: Seq<usize>,
    right_offset: usize,
) -> Option<EncodingFault> {
    if view_fault(shape, left_strides, left_offset, left_len) is Some {
        view_fault(shape, left_strides, left_offset, left_len)
    } else {
        view_fault(shape, right_strides, right_offset, right_len)
    }
}

/// Applies the binary `kernel` to the elements of two views of the same
/// shape, pair by pair in row-major order. Each operand has its own strides
/// and offset.
pub fn run_binary_strided<T: Copy, F: Fn(T, T) -> T>(
    shape: &[usize],
    x: &[T],
    x_strides: &[usize],
    x_offset: usize,
    y: &[T],
    y_strides: &[usize],
    y_offset: usize,
    kernel: F,
) -> (result: Result<Vec<T>, KernelError>)
    requires
        binary_view_fault(shape@, x@.len(), x_strides@, x_offset, y@.len(), y_strides@, y_offset)
            is None ==> forall|i: int|
            0 <= i < element_count(shape@) ==> call_requires(
                kernel,
                (
                    #[trigger] gather(x@, shape@, x_strides@, x_offset)[i],
                    gather(y@, shape@, y_strides@, y_offset)[i],
                ),
            ),
    ensures
        match result {
            Ok(out) => binary_view_fault(
                shape@,
                x@.len(),
                x_strides@,
                x_offset,
                y@.len(),
                y_strides@,
                y_offset,
            ) is None && zips_by(
                kernel,
                gather(x@, shape@, x_strides@, x_offset),
                gather(y@, shape@, y_strides@, y_offset),
                out@,
            ),
            Err(e) => binary_view_fault(
                shape@,
                x@.len(),
                x_strides@,
                x_offset,
                y@.len(),
                y_strides@,
                y_offset,
            ) is Some && e == KernelError::EncodingError(
                binary_view_fault(
                    shape@,
                    x@.len(),
                    x_strides@,
                    x_offset,
                    y@.len(),
                    y_strides@,
                    y_offset,
                )->Some_0,
            ),
        },
{
    let left = match to_contiguous(x, shape, x_strides, x_offset) {
        Ok(flat) => flat,
        Err(e) => {
            return Err(e);
        },
    };
    let right = match to_contiguous(y, shape, y_strides, y_offset) {
        Ok(flat) => flat,
        Err(e) => {
            return Err(e);
        },
    };
    run_binary(left.as_slice(), right.as_slice(), kernel)
}

/// A unary operation depends on the logical tensor only, not on how it is
/// laid out: two views with the same elements in row-major order, whatever
/// their strides and offsets, give the same results for those elements.
pub proof fn lemma_unary_layout_independent<T, F: Fn(T) -> T>(
    kernel: F,
    first: Seq<T>,
    first_shape: Seq<usize>,
    first_strides: Seq<usize>,
    first_offset: usize,
    first_out: Seq<T>,
    second: Seq<T>,
    second_shape: Seq<usize>,
    second_strides: Seq<usize>,
    second_offset: usize,
    second_out: Seq<T>,
)
    requires
        single_valued(kernel),
        gather(first, first_shape, first_strides, first_offset) == gather(
            second,
            second_shape,
            second_strides,
            second_offset,
        ),
        maps_prefix(kernel, gather(first, first_shape, first_strides, first_offset), first_out),
        maps_prefix(kernel, gather(second, second_shape, second_strides, second_offset), second_out),
    ensures
        first_out.take(element_count(first_shape) as int) == second_out.take(
            element_count(first_shape) as int,
        ),
{
    let tensor = gather(first, first_shape, first_strides, first_offset);
    let n = element_count(first_shape) as int;
    assert(tensor.len() == n);
    assert forall|i: int| 0 <= i < n implies first_out.take(n)[i] == second_out.take(n)[i] by {
        assert(call_ensures(kernel, (tensor[i],), first_out[i]));
        assert(call_ensures(kernel, (tensor[i],), second_out[i]));
    }
    assert(first_out.take(n) =~= second_out.take(n));
}

/// The strided variant of a unary operation writes, for the elements of a
/// view, what the contiguous variant gives on those elements stored in
/// row-major order.
pub proof fn lemma_strided_matches_contiguous<T, F: Fn(T) -> T>(
    kernel: F,
    data: Seq<T>,
    shape: Seq<usize>,
    strides: Seq<usize>,
    offset: usize,
    strided_out: Seq<T>,
    flat: Seq<T>,
    flat_out: Seq<T>,
)
    requires
        single_valued(kernel),
        flat == gather(data, shape, strides, offset),
        maps_prefix(kernel, gather(data, shape, strides, offset), strided_out),
        maps_by(kernel, flat, flat_out),
    ensures
        strided_out.take(flat.len() as int) == flat_out,
{
    let n = flat.len() as int;
    assert forall|i: int| 0 <= i < n implies strided_out.take(n)[i] == flat_out[i] by {
        assert(call_ensures(kernel, (flat[i],), strided_out[i]));
        assert(call_ensures(kernel, (flat[i],), flat_out[i]));
    }
    assert(strided_out.take(n) =~= flat_out);
}

/// A function of two arguments whose result is determined by them.
pub open spec fn single_valued2<T, F: Fn(T, T) -> T>(f: F) -> bool {
    forall|x: T, y: T, a: T, b: T|
        call_ensures(f, (x, y), a) && call_ensures(f, (x, y), b) ==> a == b
}

/// The strided variant of a binary operation gives what the contiguous
/// variant gives on the two logical tensors stored in row-major order.
pub proof fn lemma_binary_strided_matches_contiguous<T, F: Fn(T, T) -> T>(
    kernel: F,
    left: Seq<T>,
    right: Seq<T>,
    strided_out: Seq<T>,
    flat_out: Seq<T>,
)
    requires
        single_valued2(kernel),
        zips_by(kernel, left, right, strided_out),
        zips_by(kernel, left, right, flat_out),
    ensures
        strided_out == flat_out,
{
    assert forall|i: int| 0 <= i < strided_out.len() implies strided_out[i] == flat_out[i] by {
        assert(call_ensures(kernel, (left[i], right[i]), strided_out[i]));
        assert(call_ensures(kernel, (left[i], right[i]), flat_out[i]));
    }
    assert(strided_out =~= flat_out);
}

/// The strided variant of the affine operation gives what the contiguous
/// variant gives on the logical tensor stored in row-major order.
pub proof fn lemma_affine_strided_matches_contiguous<T, M: Fn(T, T) -> T, A: Fn(T, T) -> T>(
    times: M,
    plus: A,
    mul: T,
    add: T,
    tensor: Seq<T>,
    strided_out: Seq<T>,
    flat_out: Seq<T>,
)
    requires
        single_valued2(times),
        single_valued2(plus),
        affine_maps(times, plus, mul, add, tensor, strided_out),
        affine_maps(times, plus, mul, add, tensor, flat_out),
    ensures
        strided_out == flat_out,
{
    assert forall|i: int| 0 <= i < strided_out.len() implies strided_out[i] == flat_out[i] by {
        assert(affine_of(times, plus, mul, add, tensor[i], strided_out[i]));
        assert(affine_of(times, plus, mul, add, tensor[i], flat_out[i]));
    }
    assert(strided_out =~= flat_out);
}

} // verus!
