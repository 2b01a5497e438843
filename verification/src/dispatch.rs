//! The dispatch encoder: launch geometry and the checks that precede a
//! launch.
//!
//! A launch covers a problem of a given size with thread groups. The width of
//! a group is the smaller of the pipeline's limit and the problem size, and
//! the number of groups is the problem size divided by that width, rounded
//! up. Invocations past the problem size are expected to exclude themselves.

use crate::error::{EncodingFault, KernelError};
use vstd::arithmetic::div_mod::{lemma_fundamental_div_mod, lemma_fundamental_div_mod_converse};
use vstd::prelude::*;

verus! {

/// A size along three axes.
#[derive(Clone, Copy, Debug, PartialEq, Eq, Structural)]
pub struct Extent {
    pub width: usize,
    pub height: usize,
    pub depth: usize,
}

/// The geometry of one launch: how many thread groups, and how many threads
/// in each.
#[derive(Clone, Copy, Debug, PartialEq, Eq, Structural)]
pub struct Launch {
    pub groups: Extent,
    pub threads: Extent,
}

/// `n / d`, rounded up.
pub open spec fn ceil_div(n: nat, d: nat) -> nat {
    ((n + d - 1) / (d as int)) as nat
}

/// The width of a thread group: the smaller of the limit and the problem
/// size.
pub open spec fn group_width(limit: nat, size: nat) -> nat {
    if limit <= size {
        limit
    } else {
        size
    }
}

/// The number of thread groups along one axis.
pub open spec fn group_count(limit: nat, size: nat) -> nat {
    ceil_div(size, group_width(limit, size))
}

/// The launch of a one-dimensional problem.
pub open spec fn linear_launch(limit: usize, size: usize) -> Launch {
    Launch {
        groups: Extent {
            width: group_count(limit as nat, size as nat) as usize,
            height: 1,
            depth: 1,
        },
        threads: Extent { width: group_width(limit as nat, size as nat) as usize, height: 1, depth: 1 },
    }
}

/// The launch of a problem of up to three dimensions: the rule of the
/// one-dimensional launch, applied to each axis.
pub open spec fn grid_launch(limits: Extent, problem: Extent) -> Launch {
    Launch {
        groups: Extent {
            width: group_count(limits.width as nat, problem.width as nat) as usize,
            height: group_count(limits.height as nat, problem.height as nat) as usize,
            depth: group_count(limits.depth as nat, problem.depth as nat) as usize,
        },
        threads: Extent {
            width: group_width(limits.width as nat, problem.width as nat) as usize,
            height: group_width(limits.height as nat, problem.height as nat) as usize,
            depth: group_width(limits.depth as nat, problem.depth as nat) as usize,
        },
    }
}

/// Rounding up agrees with the quotient, plus one when there is a remainder.
pub proof fn lemma_ceil_div(n: nat, d: nat)
    requires
        d > 0,
    ensures
        ceil_div(n, d) == n / d + (if n % d == 0 {
            0nat
        } else {
            1nat
        }),
{
    let q = (n / d) as int;
    let r = (n % d) as int;
    lemma_fundamental_div_mod(n as int, d as int);
    assert(n == q * d + r) by (nonlinear_arith)
        requires
            n == (d as int) * q + r,
    ;
    if r == 0 {
        lemma_fundamental_div_mod_converse(n + d - 1, d as int, q, d - 1);
    } else {
        assert(n + d - 1 == (q + 1) * d + (r - 1)) by (nonlinear_arith)
            requires
                n == q * d + r,
        ;
        lemma_fundamental_div_mod_converse(n + d - 1, d as int, q + 1, r - 1);
    }
}

/// The groups of a launch cover the problem, and none of them is idle: with
/// `w` threads in each of `g` groups, `(g - 1) * w < size <= g * w`, the
/// width is within the limit, and every element index falls into a group
/// below `g`.
pub proof fn lemma_launch_covers(limit: nat, size: nat)
    requires
        limit > 0,
        size > 0,
    ensures
        1 <= group_width(limit, size) <= limit,
        group_width(limit, size) <= size,
        1 <= group_count(limit, size) <= size,
        (group_count(limit, size) - 1) * group_width(limit, size) < size,
        size <= group_count(limit, size) * group_width(limit, size),
        forall|i: nat| i < size ==> #[trigger] (i / group_width(limit, size)) < group_count(limit, size),
{
    let w = group_width(limit, size);
    let g = group_count(limit, size);
    lemma_ceil_div(size, w);
    let q = (size / w) as int;
    let r = (size % w) as int;
    lemma_fundamental_div_mod(size as int, w as int);
    assert(size == q * w + r) by (nonlinear_arith)
        requires
            size == (w as int) * q + r,
    ;
    assert(q >= 1) by (nonlinear_arith)
        requires
            size == q * w + r,
            0 <= r < w,
            size >= w,
    ;
    assert(q <= size) by (nonlinear_arith)
        requires
            size == q * w + r,
            0 <= r,
            w >= 1,
            q >= 0,
    ;
    if r == 0 {
        assert((q - 1) * w < q * w) by (nonlinear_arith)
            requires
                w >= 1,
        ;
    } else {
        assert((q + 1) * w == q * w + w) by (nonlinear_arith);
        assert(q + 1 <= size) by (nonlinear_arith)
            requires
                size == q * w + r,
                r >= 1,
                w >= 1,
                q >= 1,
        ;
    }
    assert forall|i: nat| i < size implies #[trigger] (i / w) < g by {
        let qi = (i / w) as int;
        let ri = (i % w) as int;
        lemma_fundamental_div_mod(i as int, w as int);
        assert(qi < g) by (nonlinear_arith)
            requires
                i == (w as int) * qi + ri,
                0 <= ri,
                i < size,
                size <= g * w,
                w >= 1,
        ;
    }
}

/// Splits one axis: the threads per group and the number of groups.
fn split_axis(limit: usize, size: usize) -> (split: (usize, usize))
    requires
        limit > 0,
        size > 0,
    ensures
        split.0 == group_count(limit as nat, size as nat),
        split.1 == group_width(limit as nat, size as nat),
{
    let width = if limit <= size {
        limit
    } else {
        size
    };
    proof {
        lemma_ceil_div(size as nat, width as nat);
        lemma_launch_covers(limit as nat, size as nat);
    }
    let whole = size / width;
    let count = if size % width == 0 {
        whole
    } else {
        whole + 1
    };
    (count, width)
}

/// The launch geometry of a one-dimensional problem.
///
/// A problem of size zero, or a pipeline that allows no thread, is refused.
pub fn linear_split(max_threads: usize, problem_size: usize) -> (result: Result<Launch, KernelError>)
    ensures
        match result {
            Ok(launch) => max_threads > 0 && problem_size > 0 && launch == linear_launch(
                max_threads,
                problem_size,
            ),
            Err(e) => (max_threads == 0 || problem_size == 0) && e == KernelError::EncodingError(
                EncodingFault::ZeroSize,
            ),
        },
{
    if max_threads == 0 || problem_size == 0 {
        return Err(KernelError::EncodingError(EncodingFault::ZeroSize));
    }
    let (count, width) = split_axis(max_threads, problem_size);
    Ok(
        Launch {
            groups: Extent { width: count, height: 1, depth: 1 },
            threads: Extent { width, height: 1, depth: 1 },
        },
    )
}

/// Whether an extent is zero along some axis.
pub open spec fn has_zero(e: Extent) -> bool {
    e.width == 0 || e.height == 0 || e.depth == 0
}

/// The launch geometry of a problem of up to three dimensions, with a limit
/// on the threads of a group along each axis.
pub fn grid_split(limits: Extent, problem: Extent) -> (result: Result<Launch, KernelError>)
    ensures
        match result {
            Ok(launch) => !has_zero(limits) && !has_zero(problem) && launch == grid_launch(
                limits,
                problem,
            ),
            Err(e) => (has_zero(limits) || has_zero(problem)) && e == KernelError::EncodingError(
                EncodingFault::ZeroSize,
            ),
        },
{
    if limits.width == 0 || limits.height == 0 || limits.depth == 0 {
        return Err(KernelError::EncodingError(EncodingFault::ZeroSize));
    }
    if problem.width == 0 || problem.height == 0 || problem.depth == 0 {
        return Err(KernelError::EncodingError(EncodingFault::ZeroSize));
    }
    let (across, width) = split_axis(limits.width, problem.width);
    let (down, height) = split_axis(limits.height, problem.height);
    let (deep, depth) = split_axis(limits.depth, problem.depth);
    Ok(
        Launch {
            groups: Extent { width: across, height: down, depth: deep },
            threads: Extent { width, height, depth },
        },
    )
}

/// One buffer argument of a dispatch: the byte length of the buffer that is
/// bound in the slot, or `None` where none is bound, and the number of bytes
/// that the kernel addresses through the slot, or `None` where that number
/// does not fit.
#[derive(Clone, Copy, Debug, PartialEq, Eq, Structural)]
pub struct Binding {
    pub bound: Option<usize>,
    pub needed: Option<usize>,
}

/// Whether a slot has a buffer that is long enough.
pub open spec fn satisfied(binding: Binding) -> bool {
    &&& binding.bound is Some
    &&& binding.needed is Some
    &&& binding.bound->Some_0 >= binding.needed->Some_0
}

/// The number of bytes that a kernel addresses through a slot when it reads
/// or writes `count` elements of `size` bytes from element `offset` on:
/// `(offset + count) * size`.
pub open spec fn bytes_addressed(offset: usize, count: usize, size: usize) -> nat {
    ((offset + count) * size) as nat
}

/// The number of bytes that a kernel addresses through a slot, or `None`
/// when it does not fit, in which case no buffer is long enough.
pub fn needed_bytes(offset: usize, count: usize, size: usize) -> (bytes: Option<usize>)
    ensures
        match bytes {
            Some(b) => b == bytes_addressed(offset, count, size),
            None => bytes_addressed(offset, count, size) > usize::MAX,
        },
{
    if size == 0 {
        proof {
            assert((offset + count) * 0 == 0) by (nonlinear_arith);
        }
        return Some(0);
    }
    match offset.checked_add(count) {
        Some(elements) => elements.checked_mul(size),
        None => {
            proof {
                assert((offset + count) * size >= offset + count) by (nonlinear_arith)
                    requires
                        size >= 1,
                        offset + count >= 0,
                ;
            }
            None
        },
    }
}

/// The slot of a buffer of `length` bytes through which a kernel addresses
/// `count` elements of `size` bytes from element `offset` on.
pub fn bind(length: usize, offset: usize, count: usize, size: usize) -> (binding: Binding)
    ensures
        binding.bound == Some(length),
        match binding.needed {
            Some(b) => b == bytes_addressed(offset, count, size),
            None => bytes_addressed(offset, count, size) > usize::MAX,
        },
        satisfied(binding) <==> bytes_addressed(offset, count, size) <= length,
{
    Binding { bound: Some(length), needed: needed_bytes(offset, count, size) }
}

/// What makes a dispatch unusable, if anything: a slot without a buffer or
/// with one that is too short, or a problem size or thread limit of zero.
pub open spec fn encode_fault(
    max_threads: usize,
    bindings: Seq<Binding>,
    problem_size: usize,
) -> Option<EncodingFault> {
    if exists|i: int| 0 <= i < bindings.len() && !satisfied(#[trigger] bindings[i]) {
        Some(EncodingFault::BufferMismatch)
    } else if max_threads == 0 || problem_size == 0 {
        Some(EncodingFault::ZeroSize)
    } else {
        None
    }
}

/// Decides a one-dimensional dispatch before anything is recorded: either
/// the launch geometry to record, or the reason why nothing may be recorded.
///
/// `bindings` holds the buffer arguments in binding order, one for each
/// buffer that the pipeline expects.
pub fn encode(max_threads: usize, bindings: &[Binding], problem_size: usize) -> (result: Result<
    Launch,
    KernelError,
>)
    ensures
        match result {
            Ok(launch) => encode_fault(max_threads, bindings@, problem_size) is None && launch
                == linear_launch(max_threads, problem_size),
            Err(e) => encode_fault(max_threads, bindings@, problem_size) is Some && e
                == KernelError::EncodingError(
                encode_fault(max_threads, bindings@, problem_size)->Some_0,
            ),
        },
{
    let mut i: usize = 0;
    while i < bindings.len()
        invariant
            i <= bindings.len(),
            forall|h: int| 0 <= h < i ==> satisfied(#[trigger] bindings@[h]),
        decreases bindings.len() - i,
    {
        let fits = match (bindings[i].bound, bindings[i].needed) {
            (Some(length), Some(needed)) => length >= needed,
            _ => false,
        };
        if !fits {
            return Err(KernelError::EncodingError(EncodingFault::BufferMismatch));
        }
        i += 1;
    }
    linear_split(max_threads, problem_size)
}

} // verus!
