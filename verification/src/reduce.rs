//! Reduction over contiguous groups, and softmax over the last dimension.

use crate::elementwise::single_valued2;
use crate::error::{EncodingFault, KernelError};
use vstd::prelude::*;

verus! {

/// `acc` holds the running results of combining the elements of `s` with
/// `f` serially from left to right: `acc[0]` is `s[0]`, and each later
/// `acc[j]` is a result of `f(acc[j - 1], s[j])`.
pub open spec fn running_fold<T, F: Fn(T, T) -> T>(f: F, s: Seq<T>, acc: Seq<T>) -> bool {
    &&& acc.len() == s.len()
    &&& s.len() > 0 ==> acc[0] == s[0]
    &&& forall|j: int| 1 <= j < s.len() ==> call_ensures(f, (acc[j - 1], s[j]), #[trigger] acc[j])
}

/// `total` is a result of combining the elements of the non-empty `s` with
/// `f` serially from left to right: `f(..f(f(s[0], s[1]), s[2]).., s[n - 1])`.
pub open spec fn folds_to<T, F: Fn(T, T) -> T>(f: F, s: Seq<T>, total: T) -> bool {
    exists|acc: Seq<T>| #[trigger] running_fold(f, s, acc) && acc.len() > 0 && acc.last() == total
}

/// What makes a buffer of `len` elements unusable for a split into equal
/// groups, if anything. `parts` is the number of groups or the size of a
/// group: either way it must be non-zero and divide the non-zero length.
pub open spec fn partition_fault(len: nat, parts: nat) -> Option<EncodingFault> {
    if len == 0 || parts == 0 {
        Some(EncodingFault::ZeroSize)
    } else if len % parts != 0 {
        Some(EncodingFault::BufferMismatch)
    } else {
        None
    }
}

/// Checks that `len` elements split into equal groups, and gives
/// `len / parts`: the size of a group where `parts` is their number, their
/// number where `parts` is their size.
pub fn check_partition(len: usize, parts: usize) -> (result: Result<usize, KernelError>)
    ensures
        match result {
            Ok(size) => partition_fault(len as nat, parts as nat) is None && size == len / parts
                && size >= 1 && size * parts == len,
            Err(e) => partition_fault(len as nat, parts as nat) is Some && e
                == KernelError::EncodingError(partition_fault(len as nat, parts as nat)->Some_0),
        },
{
    if len == 0 || parts == 0 {
        return Err(KernelError::EncodingError(EncodingFault::ZeroSize));
    }
    if len % parts != 0 {
        return Err(KernelError::EncodingError(EncodingFault::BufferMismatch));
    }
    let size = len / parts;
    proof {
        assert(size > 0 && size * parts == len) by (nonlinear_arith)
            requires
                size == len / parts,
                len % parts == 0,
                len > 0,
                parts > 0,
        ;
    }
    Ok(size)
}

/// The `g`-th of the contiguous groups of `size` elements of `v`.
pub open spec fn group<T>(v: Seq<T>, size: nat, g: int) -> Seq<T> {
    v.subrange(g * size, (g + 1) * size)
}

/// `out[g]` is a serial sum of the `g`-th of `parts` contiguous groups of
/// `v`, for every `g`.
pub open spec fn reduces_to<T, F: Fn(T, T) -> T>(f: F, v: Seq<T>, parts: nat, out: Seq<T>) -> bool {
    &&& out.len() == parts
    &&& forall|g: int|
        0 <= g < parts ==> folds_to(f, group(v, v.len() / parts, g), #[trigger] out[g])
}

/// Combines `v[start..end]` serially from left to right.
fn fold_range<T: Copy, F: Fn(T, T) -> T>(v: &[T], start: usize, end: usize, f: &F) -> (total: T)
    requires
        start < end <= v@.len(),
        forall|a: T, b: T| call_requires(*f, (a, b)),
    ensures
        folds_to(*f, v@.subrange(start as int, end as int), total),
{
    let mut acc: T = v[start];
    let mut j: usize = start + 1;
    let ghost mut trace: Seq<T> = seq![acc];
    while j < end
        invariant
            start < j <= end <= v@.len(),
            forall|a: T, b: T| call_requires(*f, (a, b)),
            running_fold(*f, v@.subrange(start as int, j as int), trace),
            trace.last() == acc,
        decreases end - j,
    {
        acc = f(acc, v[j]);
        j += 1;
        proof {
            trace = trace.push(acc);
        }
    }
    acc
}

/// Sums each of `out_length` contiguous groups of `v` serially from left to
/// right, with `plus` as the addition. The groups have `v.len() / out_length`
/// elements each, and the length must divide evenly.
pub fn run_reduce<T: Copy, F: Fn(T, T) -> T>(v: &[T], out_length: usize, plus: F) -> (result:
    Result<Vec<T>, KernelError>)
    requires
        forall|a: T, b: T| call_requires(plus, (a, b)),
    ensures
        match result {
            Ok(out) => partition_fault(v@.len(), out_length as nat) is None && reduces_to(
                plus,
                v@,
                out_length as nat,
                out@,
            ),
            Err(e) => partition_fault(v@.len(), out_length as nat) is Some && e
                == KernelError::EncodingError(partition_fault(v@.len(), out_length as nat)->Some_0),
        },
{
    let size = match check_partition(v.len(), out_length) {
        Ok(size) => size,
        Err(e) => {
            return Err(e);
        },
    };
    let mut out: Vec<T> = Vec::with_capacity(out_length);
    let mut g: usize = 0;
    let mut start: usize = 0;
    while g < out_length
        invariant
            g <= out_length,
            size > 0,
            size * out_length == v@.len(),
            v@.len() == v.len(),
            size == v@.len() / (out_length as nat),
            start == g * size,
            out@.len() == g,
            forall|a: T, b: T| call_requires(plus, (a, b)),
            forall|h: int| 0 <= h < g ==> folds_to(plus, group(v@, size as nat, h), #[trigger] out@[h]),
        decreases out_length - g,
    {
        proof {
            assert((g + 1) * size <= size * out_length) by (nonlinear_arith)
                requires
                    g < out_length,
            ;
            assert((g + 1) * size == g * size + size) by (nonlinear_arith);
        }
        let total = fold_range(v, start, start + size, &plus);
        out.push(total);
        start = start + size;
        g += 1;
    }
    Ok(out)
}

/// With a single group, a reduction is the serial sum of the whole input.
pub proof fn lemma_reduce_whole<T, F: Fn(T, T) -> T>(plus: F, v: Seq<T>, out: Seq<T>)
    requires
        reduces_to(plus, v, 1, out),
    ensures
        out.len() == 1,
        folds_to(plus, v, out[0]),
{
    assert(group(v, v.len() / 1, 0) =~= v);
}

/// An operation for which `(a + b) + c` and `a + (b + c)` are the same.
pub open spec fn associative<T, F: Fn(T, T) -> T>(f: F) -> bool {
    forall|a: T, b: T, c: T, ab: T, bc: T, abc: T|
        #![trigger call_ensures(f, (a, b), ab), call_ensures(f, (ab, c), abc), call_ensures(f, (b, c), bc)]
        call_ensures(f, (a, b), ab) && call_ensures(f, (ab, c), abc) && call_ensures(f, (b, c), bc)
            ==> call_ensures(f, (a, bc), abc)
}

/// The running results of a serial sum are determined by the summands when
/// the addition is single-valued.
proof fn lemma_running_fold_unique<T, F: Fn(T, T) -> T>(
    f: F,
    s: Seq<T>,
    first: Seq<T>,
    second: Seq<T>,
    j: int,
)
    requires
        single_valued2(f),
        running_fold(f, s, first),
        running_fold(f, s, second),
        0 <= j < s.len(),
    ensures
        first[j] == second[j],
    decreases j,
{
    if j > 0 {
        lemma_running_fold_unique(f, s, first, second, j - 1);
        assert(call_ensures(f, (first[j - 1], s[j]), first[j]));
        assert(call_ensures(f, (second[j - 1], s[j]), second[j]));
    }
}

/// The sum of a sequence followed by another is the sum of the first plus
/// the sum of the second, when the addition is associative.
proof fn lemma_fold_concat<T, F: Fn(T, T) -> T>(
    f: F,
    head: Seq<T>,
    tail: Seq<T>,
    whole: Seq<T>,
    part: Seq<T>,
)
    requires
        associative(f),
        head.len() > 0,
        tail.len() > 0,
        running_fold(f, head + tail, whole),
        running_fold(f, tail, part),
    ensures
        call_ensures(f, (whole[head.len() - 1], part.last()), whole.last()),
    decreases tail.len(),
{
    let all = head + tail;
    let last = all.len() - 1;
    assert(all[last] == tail.last());
    assert(call_ensures(f, (whole[last - 1], all[last]), whole[last]));
    if tail.len() == 1 {
        assert(part.last() == tail[0]);
    } else {
        let shorter = tail.drop_last();
        assert(all.drop_last() =~= head + shorter);
        assert(running_fold(f, head + shorter, whole.drop_last())) by {
            assert forall|j: int| 1 <= j < (head + shorter).len() implies call_ensures(
                f,
                (whole.drop_last()[j - 1], (head + shorter)[j]),
                #[trigger] whole.drop_last()[j],
            ) by {
                assert(call_ensures(f, (whole[j - 1], all[j]), whole[j]));
            }
        }
        assert(running_fold(f, shorter, part.drop_last())) by {
            assert forall|j: int| 1 <= j < shorter.len() implies call_ensures(
                f,
                (part.drop_last()[j - 1], shorter[j]),
                #[trigger] part.drop_last()[j],
            ) by {
                assert(call_ensures(f, (part[j - 1], tail[j]), part[j]));
            }
        }
        lemma_fold_concat(f, head, shorter, whole.drop_last(), part.drop_last());
        let m = tail.len() - 1;
        assert(call_ensures(f, (part[m - 1], tail[m]), part[m]));
        let a = whole[head.len() - 1];
        let b = part[m - 1];
        let c = tail[m];
        assert(call_ensures(f, (a, b), whole[last - 1]));
        assert(call_ensures(f, (whole[last - 1], c), whole[last]));
        assert(call_ensures(f, (b, c), part[m]));
    }
}

/// After `g + 1` groups, the running sum of the group sums is the running
/// sum of the elements of those groups.
proof fn lemma_group_sums<T, F: Fn(T, T) -> T>(
    plus: F,
    v: Seq<T>,
    size: nat,
    parts: nat,
    out: Seq<T>,
    of_elements: Seq<T>,
    of_groups: Seq<T>,
    g: int,
)
    requires
        single_valued2(plus),
        associative(plus),
        size >= 1,
        v.len() == parts * size,
        out.len() == parts,
        forall|h: int| 0 <= h < parts ==> folds_to(plus, group(v, size, h), #[trigger] out[h]),
        running_fold(plus, v, of_elements),
        running_fold(plus, out, of_groups),
        0 <= g < parts,
    ensures
        0 <= (g + 1) * size - 1 < v.len(),
        of_groups[g] == of_elements[(g + 1) * size - 1],
    decreases g,
{
    let end = (g + 1) * size;
    let start = g * size;
    assert(0 <= start && start + size == end && end <= parts * size) by (nonlinear_arith)
        requires
            0 <= g < parts,
            size >= 1,
            end == (g + 1) * size,
            start == g * size,
    ;
    let members = group(v, size, g);
    assert(members.len() == size);
    assert(folds_to(plus, members, out[g]));
    let within = choose|acc: Seq<T>| #[trigger]
        running_fold(plus, members, acc) && acc.len() > 0 && acc.last() == out[g];
    let upto = of_elements.take(end);
    assert(running_fold(plus, v.take(end), upto)) by {
        assert forall|j: int| 1 <= j < v.take(end).len() implies call_ensures(
            plus,
            (upto[j - 1], v.take(end)[j]),
            #[trigger] upto[j],
        ) by {
            assert(call_ensures(plus, (of_elements[j - 1], v[j]), of_elements[j]));
        }
    }
    if g == 0 {
        assert(members =~= v.take(end));
        lemma_running_fold_unique(plus, members, within, upto, size - 1);
    } else {
        lemma_group_sums(plus, v, size, parts, out, of_elements, of_groups, g - 1);
        assert(v.take(end) =~= v.take(start) + members);
        lemma_fold_concat(plus, v.take(start), members, upto, within);
        assert(call_ensures(plus, (of_elements[start - 1], out[g]), of_elements[end - 1]));
        assert(call_ensures(plus, (of_groups[g - 1], out[g]), of_groups[g]));
    }
}

/// When the addition is single-valued and associative, the sums of the
/// groups add up to the sum of the whole input.
pub proof fn lemma_reduce_adds_up<T, F: Fn(T, T) -> T>(
    plus: F,
    v: Seq<T>,
    parts: nat,
    out: Seq<T>,
    total: T,
    whole: T,
)
    requires
        single_valued2(plus),
        associative(plus),
        partition_fault(v.len(), parts) is None,
        reduces_to(plus, v, parts, out),
        folds_to(plus, out, total),
        folds_to(plus, v, whole),
    ensures
        total == whole,
{
    let size = v.len() / parts;
    assert(size >= 1 && v.len() == parts * size) by (nonlinear_arith)
        requires
            size == v.len() / parts,
            v.len() % parts == 0,
            v.len() > 0,
            parts > 0,
    ;
    let of_elements = choose|acc: Seq<T>| #[trigger]
        running_fold(plus, v, acc) && acc.len() > 0 && acc.last() == whole;
    let of_groups = choose|acc: Seq<T>| #[trigger]
        running_fold(plus, out, acc) && acc.len() > 0 && acc.last() == total;
    lemma_group_sums(plus, v, size, parts, out, of_elements, of_groups, parts - 1);
    assert((parts - 1 + 1) * size == parts * size) by (nonlinear_arith);
}

/// The steps of a softmax over one row: `top` is the maximum of the row,
/// `weights[k]` is `exp(row[k] - top)`, `norm` is the serial sum of the
/// weights, and `out[k]` is `weights[k] / norm`.
pub open spec fn softmax_steps<
    T,
    MX: Fn(T, T) -> T,
    E: Fn(T, T) -> T,
    P: Fn(T, T) -> T,
    D: Fn(T, T) -> T,
>(
    max: MX,
    exp_diff: E,
    plus: P,
    div: D,
    row: Seq<T>,
    top: T,
    weights: Seq<T>,
    norm: T,
    out: Seq<T>,
) -> bool {
    &&& folds_to(max, row, top)
    &&& maps_with(exp_diff, row, top, weights)
    &&& folds_to(plus, weights, norm)
    &&& maps_with(div, weights, norm, out)
}

/// `output[k]` is a result of `f(input[k], fixed)`, for every `k`.
pub open spec fn maps_with<T, F: Fn(T, T) -> T>(f: F, input: Seq<T>, fixed: T, output: Seq<T>) -> bool {
    &&& output.len() == input.len()
    &&& forall|k: int|
        0 <= k < input.len() ==> call_ensures(f, (input[k], fixed), #[trigger] output[k])
}

/// `out` is a softmax of `row`: with `m` the maximum of the row,
/// `out[k] = exp(row[k] - m) / sum_k exp(row[k] - m)`.
pub open spec fn softmax_of<
    T,
    MX: Fn(T, T) -> T,
    E: Fn(T, T) -> T,
    P: Fn(T, T) -> T,
    D: Fn(T, T) -> T,
>(max: MX, exp_diff: E, plus: P, div: D, row: Seq<T>, out: Seq<T>) -> bool {
    exists|top: T, weights: Seq<T>, norm: T| #[trigger]
        softmax_steps(max, exp_diff, plus, div, row, top, weights, norm, out)
}

/// Every row of `last_dim` elements of `out` is a softmax of the same row of
/// `v`.
pub open spec fn softmax_rows<
    T,
    MX: Fn(T, T) -> T,
    E: Fn(T, T) -> T,
    P: Fn(T, T) -> T,
    D: Fn(T, T) -> T,
>(max: MX, exp_diff: E, plus: P, div: D, v: Seq<T>, last_dim: nat, out: Seq<T>) -> bool {
    &&& out.len() == v.len()
    &&& forall|q: int|
        0 <= q < v.len() / last_dim ==> softmax_of(
            max,
            exp_diff,
            plus,
            div,
            #[trigger] group(v, last_dim, q),
            group(out, last_dim, q),
        )
}

/// Applies `f(v[k], fixed)` to the elements of `v[start..end]`.
fn map_range_with<T: Copy, F: Fn(T, T) -> T>(
    v: &[T],
    start: usize,
    end: usize,
    fixed: T,
    f: &F,
) -> (out: Vec<T>)
    requires
        start <= end <= v@.len(),
        forall|a: T, b: T| call_requires(*f, (a, b)),
    ensures
        maps_with(*f, v@.subrange(start as int, end as int), fixed, out@),
{
    let mut out: Vec<T> = Vec::with_capacity(end - start);
    let mut k: usize = start;
    while k < end
        invariant
            start <= k <= end <= v@.len(),
            forall|a: T, b: T| call_requires(*f, (a, b)),
            out@.len() == k - start,
            forall|j: int|
                0 <= j < k - start ==> call_ensures(*f, (v@[start + j], fixed), #[trigger] out@[j]),
        decreases end - k,
    {
        let y = f(v[k], fixed);
        out.push(y);
        k += 1;
    }
    out
}

/// Softmax over every row of `last_dim` elements of `v`.
///
/// For each row the maximum `m` is taken first, then
/// `exp(row[k] - m) / sum_k exp(row[k] - m)`; `exp_diff(x, m)` computes
/// `exp(x - m)`. The length of `v` must be a multiple of `last_dim`.
pub fn run_softmax<
    T: Copy,
    MX: Fn(T, T) -> T,
    E: Fn(T, T) -> T,
    P: Fn(T, T) -> T,
    D: Fn(T, T) -> T,
>(v: &[T], last_dim: usize, max: MX, exp_diff: E, plus: P, div: D) -> (result: Result<
    Vec<T>,
    KernelError,
>)
    requires
        forall|a: T, b: T| call_requires(max, (a, b)),
        forall|a: T, b: T| call_requires(exp_diff, (a, b)),
        forall|a: T, b: T| call_requires(plus, (a, b)),
        forall|a: T, b: T| call_requires(div, (a, b)),
    ensures
        match result {
            Ok(out) => partition_fault(v@.len(), last_dim as nat) is None && softmax_rows(
                max,
                exp_diff,
                plus,
                div,
                v@,
                last_dim as nat,
                out@,
            ),
            Err(e) => partition_fault(v@.len(), last_dim as nat) is Some && e
                == KernelError::EncodingError(partition_fault(v@.len(), last_dim as nat)->Some_0),
        },
{
    let rows = match check_partition(v.len(), last_dim) {
        Ok(rows) => rows,
        Err(e) => {
            return Err(e);
        },
    };
    let mut out: Vec<T> = Vec::with_capacity(v.len());
    let mut q: usize = 0;
    let mut start: usize = 0;
    proof {
        assert(rows * last_dim == v.len()) by (nonlinear_arith)
            requires
                rows == v.len() / last_dim,
                v.len() % last_dim == 0,
                last_dim > 0,
        ;
    }
    while q < rows
        invariant
            q <= rows,
            last_dim > 0,
            rows * last_dim == v@.len(),
            v@.len() == v.len(),
            start == q * last_dim,
            out@.len() == start,
            forall|a: T, b: T| call_requires(max, (a, b)),
            forall|a: T, b: T| call_requires(exp_diff, (a, b)),
            forall|a: T, b: T| call_requires(plus, (a, b)),
            forall|a: T, b: T| call_requires(div, (a, b)),
            forall|h: int|
                0 <= h < q ==> softmax_of(
                    max,
                    exp_diff,
                    plus,
                    div,
                    #[trigger] group(v@, last_dim as nat, h),
                    group(out@, last_dim as nat, h),
                ),
        decreases rows - q,
    {
        proof {
            assert((q + 1) * last_dim <= rows * last_dim) by (nonlinear_arith)
                requires
                    q < rows,
            ;
            assert((q + 1) * last_dim == q * last_dim + last_dim) by (nonlinear_arith);
        }
        let end = start + last_dim;
        let top = fold_range(v, start, end, &max);
        let weights = map_range_with(v, start, end, top, &exp_diff);
        let norm = fold_range(weights.as_slice(), 0, last_dim, &plus);
        let mut row = map_range_with(weights.as_slice(), 0, last_dim, norm, &div);
        let ghost before = out@;
        let ghost row_out = row@;
        out.append(&mut row);
        proof {
            assert(weights@.subrange(0, last_dim as int) =~= weights@);
            assert(group(out@, last_dim as nat, q as int) =~= row_out);
            assert(softmax_steps(
                max,
                exp_diff,
                plus,
                div,
                group(v@, last_dim as nat, q as int),
                top,
                weights@,
                norm,
                row_out,
            ));
            assert forall|h: int| 0 <= h < q implies group(out@, last_dim as nat, h) == group(
                before,
                last_dim as nat,
                h,
            ) by {
                let d = last_dim as nat;
                assert(0 <= h * d <= (h + 1) * d <= q * d) by (nonlinear_arith)
                    requires
                        0 <= h,
                        h + 1 <= q,
                ;
                assert(before.len() == q * d);
                assert(out@ == before + row_out);
                assert(group(out@, d, h) =~= group(before, d, h));
            }
        }
        start = end;
        q += 1;
    }
    proof {
        assert(v@.len() / (last_dim as nat) == rows);
    }
    Ok(out)
}

} // verus!
