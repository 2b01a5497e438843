use metal_kernels::error::{EncodingFault, KernelError};
use metal_kernels::ternary::{plan_where_cond, run_where_cond};

fn approx(v: Vec<f32>, digits: i32) -> Vec<f32> {
    let b = 10f32.powi(digits);
    v.iter().map(|t| f32::round(t * b) / b).collect()
}

#[test]
fn where_cond() {
    let shape = vec![6];
    let cond = vec![0u8, 1, 0, 0, 1, 1];
    let cond_l = (vec![1], 0);
    let left_true = vec![1.0f32, 2.0, 3.0, 4.0, 5.0, 6.0];
    let left_l = (vec![1], 0);
    let right_false = vec![-1.0f32, -2.0, -3.0, -4.0, -5.0, -6.0];
    let right_l = (vec![1], 0);
    let results = run_where_cond(
        &shape,
        &cond,
        cond_l,
        &left_true,
        left_l,
        &right_false,
        right_l,
    )
    .unwrap();
    assert_eq!(approx(results, 4), vec![-1.0f32, 2.0, -3.0, -4.0, 5.0, 6.0]);
}

#[test]
fn where_cond_with_independent_layouts() {
    let shape = vec![2, 2];
    // The condition is stored transposed, the left operand behind an offset,
    // the right operand is one broadcast element.
    let cond = vec![1u8, 0, 0, 7];
    let left = vec![0i32, 0, 0, 10, 20, 30, 40];
    let right = vec![-1i32];
    let out = run_where_cond(
        &shape,
        &cond,
        (vec![1, 2], 0),
        &left,
        (vec![2, 1], 3),
        &right,
        (vec![0, 0], 0),
    );
    // Logical condition: [[1, 0], [0, 7]].
    assert_eq!(out, Ok(vec![10, -1, -1, 40]));
}

#[test]
fn where_cond_output_is_as_long_as_the_condition() {
    let shape = vec![3];
    let cond = vec![0u8, 1, 0, 0, 0, 0];
    let left_true = vec![1.0f32, 2.0, 3.0, 4.0, 5.0, 6.0];
    let right_false = vec![-1.0f32, -2.0, -3.0, -4.0, -5.0, -6.0];
    let result = run_where_cond(
        &shape,
        &cond,
        (vec![1], 0),
        &left_true,
        (vec![1], 0),
        &right_false,
        (vec![2], 0),
    )
    .unwrap();
    assert_eq!(result.len(), 6);
    // The right operand is read at its own stride.
    assert_eq!(result[..3], [-1.0, 2.0, -5.0]);
    // What follows was never written.
    assert_eq!(result[3..], [0.0, 0.0, 0.0]);
}

#[test]
fn where_cond_needs_room_for_every_element_of_the_shape() {
    let cond = vec![1u8, 0];
    let left = vec![1i32, 2, 3, 4];
    let right = vec![-1i32];
    // Four elements are chosen, and the output holds two.
    assert_eq!(
        run_where_cond(&[4], &cond, (vec![0], 1), &left, (vec![1], 0), &right, (vec![0], 0)),
        Err(KernelError::EncodingError(EncodingFault::BufferMismatch))
    );
    assert_eq!(
        run_where_cond(&[2], &cond, (vec![0], 1), &left, (vec![2], 1), &right, (vec![0], 0)),
        Ok(vec![-1, -1])
    );
    assert_eq!(
        run_where_cond(&[2], &cond, (vec![0], 0), &left, (vec![2], 1), &right, (vec![0], 0)),
        Ok(vec![2, 4])
    );
}

#[test]
fn where_cond_faults() {
    let cond = vec![1u8, 0];
    let left = vec![1u32, 2];
    let right = vec![3u32];
    assert_eq!(
        run_where_cond(&[2], &cond, (vec![1, 1], 0), &left, (vec![1], 0), &right, (vec![0], 0)),
        Err(KernelError::EncodingError(EncodingFault::RankMismatch))
    );
    assert_eq!(
        run_where_cond(&[2], &cond, (vec![1], 0), &left, (vec![1], 1), &right, (vec![0], 0)),
        Err(KernelError::EncodingError(EncodingFault::BufferMismatch))
    );
    assert_eq!(
        run_where_cond(&[2], &cond, (vec![1], 0), &left, (vec![1], 0), &right, (vec![1], 0)),
        Err(KernelError::EncodingError(EncodingFault::BufferMismatch))
    );
    assert_eq!(
        run_where_cond(&[0], &cond, (vec![1], 0), &left, (vec![1], 0), &right, (vec![1], 0)),
        Err(KernelError::EncodingError(EncodingFault::ZeroSize))
    );
}

#[test]
fn where_plan_reports_the_first_fault() {
    assert_eq!(plan_where_cond(&[2, 3], 6, (&[3, 1], 0), 6, (&[1, 2], 0), 1, (&[0, 0], 0)), Ok(6));
    assert_eq!(
        plan_where_cond(&[2, 3], 6, (&[3], 0), 5, (&[3, 1], 0), 6, (&[3, 1], 0)),
        Err(KernelError::EncodingError(EncodingFault::RankMismatch))
    );
    assert_eq!(
        plan_where_cond(&[2, 3], 6, (&[3, 1], 0), 5, (&[3, 1], 0), 6, (&[3], 0)),
        Err(KernelError::EncodingError(EncodingFault::BufferMismatch))
    );
}
