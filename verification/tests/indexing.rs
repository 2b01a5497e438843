use half::f16;
use metal_kernels::error::{EncodingFault, KernelError};
use metal_kernels::indexing::{
    plan_index_add, plan_index_select, run_index_add, run_index_select, Selection,
};

fn approx_f16(v: Vec<f16>, digits: i32) -> Vec<f32> {
    let b = 10f32.powi(digits);
    v.iter().map(|t| f32::round(t.to_f32() * b) / b).collect()
}

#[test]
fn index_select() {
    let embedding = [1.0f32, 2.0, 3.0, 4.0, 5.0, 6.0, 7.0, 8.0, 9.0, 10.0];
    let shape = [5, 2];
    let ids = [0u32, 4, 2];
    let dim = 0;
    let result = run_index_select(&embedding, &shape, &ids, dim).unwrap();
    assert_eq!(result, vec![1.0f32, 2.0, 9.0, 10.0, 5.0, 6.0]);

    let embedding = [1.0f32, 2.0, 3.0, 4.0, 5.0, 6.0, 7.0, 8.0, 9.0, 10.0];
    let shape = [2, 5];
    let ids = [0u32, 1, 0];
    let dim = 0;
    let result = run_index_select(&embedding, &shape, &ids, dim).unwrap();
    assert_eq!(
        result,
        vec![1.0f32, 2.0, 3.0, 4.0, 5.0, 6.0, 7.0, 8.0, 9.0, 10.0, 1.0f32, 2.0, 3.0, 4.0, 5.0]
    );
}

#[test]
fn index_select_f16() {
    let embedding: Vec<_> = [1.0f32, 2.0, 3.0, 4.0, 5.0, 6.0, 7.0, 8.0, 9.0, 10.0]
        .into_iter()
        .map(|x| f16::from_f32(x))
        .collect();
    let shape = [5, 2];
    let ids = [0u32, 4, 2];
    let dim = 0;
    let result = run_index_select(&embedding, &shape, &ids, dim).unwrap();
    assert_eq!(
        approx_f16(result, 4),
        vec![1.0f32, 2.0, 9.0, 10.0, 5.0, 6.0]
    );
}

#[test]
fn index_select_dim1() {
    let embedding = [1.0f32, 2.0, 3.0, 4.0, 5.0, 6.0, 7.0, 8.0, 9.0, 10.0];
    let shape = [5, 2];
    let ids = [0u32, 1, 0];
    let dim = 1;
    let result = run_index_select(&embedding, &shape, &ids, dim).unwrap();
    assert_eq!(
        result,
        vec![1.0f32, 2.0, 1.0, 3.0, 4.0, 3.0, 5.0, 6.0, 5.0, 7.0, 8.0f32, 7.0, 9.0, 10.0, 9.0]
    );
}

#[test]
fn index_add() {
    let left = [1.0f32, 2.0, 3.0, 4.0, 5.0, 6.0, 7.0, 8.0, 9.0];
    let right = [1.0f32; 15];
    let index = [0u32, 4, 2];
    let shape = [5, 3];

    let expected = vec![
        2.0, 3.0, 4.0, 1.0, 1.0, 1.0, 8.0, 9.0, 10.0, 1.0, 1.0, 1.0, 5.0, 6.0, 7.0,
    ];
    let result: Vec<f32> =
        run_index_add(&right, &shape, &index, &left, 0, |a: f32, b: f32| a + b).unwrap();
    assert_eq!(result, expected);
}

#[test]
fn index_select_with_identity_reproduces_the_embedding() {
    let embedding: Vec<u32> = (0..24).collect();
    let shape = [2, 3, 4];
    assert_eq!(run_index_select(&embedding, &shape, &[0, 1], 0), Ok(embedding.clone()));
    assert_eq!(run_index_select(&embedding, &shape, &[0, 1, 2], 1), Ok(embedding.clone()));
    assert_eq!(run_index_select(&embedding, &shape, &[0, 1, 2, 3], 2), Ok(embedding.clone()));
    // Re-selecting rows, then selecting the identity, keeps the selected rows.
    let picked = run_index_select(&embedding, &shape, &[2, 0], 1).unwrap();
    assert_eq!(
        picked,
        vec![8, 9, 10, 11, 0, 1, 2, 3, 20, 21, 22, 23, 12, 13, 14, 15]
    );
    assert_eq!(run_index_select(&picked, &[2, 2, 4], &[0, 1], 1), Ok(picked.clone()));
}

#[test]
fn index_select_faults() {
    let embedding = [1u8, 2, 3, 4, 5, 6];
    let out_of_range = Err(KernelError::EncodingError(EncodingFault::IndexOutOfRange));
    assert_eq!(run_index_select(&embedding, &[3, 2], &[0], 2), out_of_range);
    assert_eq!(run_index_select(&embedding, &[3, 2], &[0, 3], 0), out_of_range);
    assert_eq!(run_index_select(&embedding, &[3, 2], &[2], 1), out_of_range);
    assert_eq!(
        run_index_select(&embedding, &[3, 2], &[], 0),
        Err(KernelError::EncodingError(EncodingFault::ZeroSize))
    );
    assert_eq!(
        run_index_select(&embedding, &[3, 0], &[0], 0),
        Err(KernelError::EncodingError(EncodingFault::ZeroSize))
    );
    assert_eq!(
        run_index_select(&embedding, &[4, 2], &[0], 0),
        Err(KernelError::EncodingError(EncodingFault::BufferMismatch))
    );
    // A buffer larger than the embedding is read from its start.
    assert_eq!(run_index_select(&embedding, &[2, 2], &[1], 0), Ok(vec![3, 4]));
}

#[test]
fn index_add_sums_repeated_indices() {
    let dst = [10i64, 20, 30, 40, 50, 60];
    let src = [1i64, 2, 3, 4, 5, 6];
    let plus = |a: i64, b: i64| a + b;
    // Three source rows, two of them aimed at row 2.
    let out = run_index_add(&dst, &[3, 2], &[2, 0, 2], &src, 0, plus).unwrap();
    assert_eq!(out, vec![13, 24, 30, 40, 56, 68]);
    // Along the inner dimension.
    let out = run_index_add(&dst, &[3, 2], &[1, 1], &src, 1, plus).unwrap();
    assert_eq!(out, vec![10, 23, 30, 47, 50, 71]);
}

#[test]
fn index_add_with_disjoint_targets_is_select_then_write() {
    let dst: Vec<i64> = (0..12).map(|x| 100 * x).collect();
    let src = [1i64, 2, 3, 4, 5, 6];
    let ids = [3u32, 1];
    let shape = [4, 3];
    let out = run_index_add(&dst, &shape, &ids, &src, 0, |a: i64, b: i64| a + b).unwrap();
    let selected_before = run_index_select(&dst, &shape, &ids, 0).unwrap();
    let selected_after = run_index_select(&out, &shape, &ids, 0).unwrap();
    let sums: Vec<i64> = selected_before.iter().zip(src.iter()).map(|(a, b)| a + b).collect();
    assert_eq!(selected_after, sums);
    assert_eq!(&out[0..3], &dst[0..3]);
    assert_eq!(&out[6..9], &dst[6..9]);
    assert_eq!(out, vec![0, 100, 200, 304, 405, 506, 600, 700, 800, 901, 1002, 1103]);
}

#[test]
fn index_add_keeps_the_order_of_the_source_slices() {
    // With an addition that is not commutative the order shows.
    let dst = [1u64];
    let src = [2u64, 3];
    let out = run_index_add(&dst, &[1], &[0, 0], &src, 0, |a: u64, b: u64| 10 * a + b).unwrap();
    assert_eq!(out, vec![123]);
}

#[test]
fn index_add_faults() {
    let dst = [0u32; 6];
    let src = [1u32; 4];
    let plus = |a: u32, b: u32| a + b;
    assert_eq!(
        run_index_add(&dst, &[3, 2], &[0, 1], &src, 2, plus),
        Err(KernelError::EncodingError(EncodingFault::IndexOutOfRange))
    );
    assert_eq!(
        run_index_add(&dst, &[3, 2], &[0, 3], &src, 0, plus),
        Err(KernelError::EncodingError(EncodingFault::IndexOutOfRange))
    );
    assert_eq!(
        run_index_add(&dst, &[3, 2], &[], &src, 0, plus),
        Err(KernelError::EncodingError(EncodingFault::ZeroSize))
    );
    assert_eq!(
        run_index_add(&dst, &[2, 2], &[0, 1], &src, 0, plus),
        Err(KernelError::EncodingError(EncodingFault::BufferMismatch))
    );
    assert_eq!(
        run_index_add(&dst, &[3, 2], &[0, 1, 2], &src, 0, plus),
        Err(KernelError::EncodingError(EncodingFault::BufferMismatch))
    );
}

#[test]
fn index_plans_give_the_three_blocks() {
    assert_eq!(
        plan_index_select(24, &[2, 3, 4], &[2, 0, 1, 1, 0], 1),
        Ok(Selection { left: 2, dim_size: 3, right: 4, total: 40 })
    );
    assert_eq!(
        plan_index_select(24, &[2, 3, 4], &[1], 0),
        Ok(Selection { left: 1, dim_size: 2, right: 12, total: 12 })
    );
    assert_eq!(
        plan_index_select(24, &[2, 3, 4], &[3, 3], 2),
        Ok(Selection { left: 6, dim_size: 4, right: 1, total: 12 })
    );
    assert_eq!(
        plan_index_select(8, &[8], &[0; 3], 0),
        Ok(Selection { left: 1, dim_size: 8, right: 1, total: 3 })
    );
    assert_eq!(
        plan_index_add(15, &[5, 3], &[0, 4, 2], 9, 0),
        Ok(Selection { left: 1, dim_size: 5, right: 3, total: 9 })
    );
    assert_eq!(
        plan_index_add(16, &[5, 3], &[0, 4, 2], 9, 0),
        Err(KernelError::EncodingError(EncodingFault::BufferMismatch))
    );
    // The destination is compared before the index values are looked at.
    assert_eq!(
        plan_index_add(16, &[5, 3], &[0, 5, 2], 9, 0),
        Err(KernelError::EncodingError(EncodingFault::BufferMismatch))
    );
    assert_eq!(
        plan_index_add(15, &[5, 3], &[0, 5, 2], 9, 0),
        Err(KernelError::EncodingError(EncodingFault::IndexOutOfRange))
    );
    let huge = vec![0u32; 3];
    assert_eq!(
        plan_index_select(usize::MAX, &[usize::MAX / 2, 2], &huge, 1),
        Err(KernelError::EncodingError(EncodingFault::BufferMismatch))
    );
}

#[test]
fn index_add_into_zeros_then_select_gives_the_source_back() {
    let src: Vec<i64> = (1..=12).collect();
    let ids = [3u32, 0, 2];
    let shape = [2, 5, 2];
    let zeros = vec![0i64; 20];
    let out = run_index_add(&zeros, &shape, &ids, &src, 1, |a: i64, b: i64| a + b).unwrap();
    assert_eq!(run_index_select(&out, &shape, &ids, 1), Ok(src));
    // The slices that no index names are still zero.
    assert_eq!(run_index_select(&out, &shape, &[1, 4], 1), Ok(vec![0; 8]));
}

#[test]
fn selecting_one_slice_after_index_add_shows_every_addition() {
    let dst: Vec<i64> = (0..12).map(|x| 1000 * x).collect();
    let src: Vec<i64> = (1..=16).collect();
    // Shape [2, 3, 2]; four source slices, three of them aimed at slice 1.
    let ids = [1u32, 2, 1, 1];
    let out = run_index_add(&dst, &[2, 3, 2], &ids, &src, 1, |a: i64, b: i64| a + b).unwrap();
    let row = run_index_select(&out, &[2, 3, 2], &[1], 1).unwrap();
    assert_eq!(
        row,
        vec![
            2000 + 1 + 5 + 7,
            3000 + 2 + 6 + 8,
            8000 + 9 + 13 + 15,
            9000 + 10 + 14 + 16
        ]
    );
}
