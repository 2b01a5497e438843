use half::{bf16, f16};
use metal_kernels::error::{EncodingFault, KernelError};
use metal_kernels::reduce::{check_partition, run_reduce, run_softmax};

fn approx(v: Vec<f32>, digits: i32) -> Vec<f32> {
    let b = 10f32.powi(digits);
    v.iter().map(|t| f32::round(t * b) / b).collect()
}

fn approx_f16(v: Vec<f16>, digits: i32) -> Vec<f32> {
    let b = 10f32.powi(digits);
    v.iter().map(|t| f32::round(t.to_f32() * b) / b).collect()
}

fn approx_bf16(v: Vec<bf16>, digits: i32) -> Vec<f32> {
    let b = 10f32.powi(digits);
    v.iter().map(|t| f32::round(t.to_f32() * b) / b).collect()
}

fn softmax_f32(v: &[f32], last_dim: usize) -> Vec<f32> {
    run_softmax(
        v,
        last_dim,
        |a: f32, b: f32| a.max(b),
        |x: f32, m: f32| (x - m).exp(),
        |a: f32, b: f32| a + b,
        |a: f32, b: f32| a / b,
    )
    .unwrap()
}

fn softmax_f16(v: &[f16], last_dim: usize) -> Vec<f16> {
    run_softmax(
        v,
        last_dim,
        |a: f16, b: f16| a.max(b),
        |x: f16, m: f16| f16::from_f32((x.to_f32() - m.to_f32()).exp()),
        |a: f16, b: f16| a + b,
        |a: f16, b: f16| a / b,
    )
    .unwrap()
}

fn softmax_bf16(v: &[bf16], last_dim: usize) -> Vec<bf16> {
    run_softmax(
        v,
        last_dim,
        |a: bf16, b: bf16| a.max(b),
        |x: bf16, m: bf16| bf16::from_f32((x.to_f32() - m.to_f32()).exp()),
        |a: bf16, b: bf16| a + b,
        |a: bf16, b: bf16| a / b,
    )
    .unwrap()
}

#[test]
fn reduce_sum() {
    let v = vec![1.0f32, 2.0, 3.0, 4.0, 5.0, 6.0];
    let out_length = 1;

    let results = run_reduce(&v, out_length, |a: f32, b: f32| a + b).unwrap();
    assert_eq!(approx(results, 4), vec![21.0]);
}

#[test]
fn reduce_sum2() {
    let v = vec![1.0f32, 2.0, 3.0, 4.0, 5.0, 6.0];
    let out_length = 2;

    let results = run_reduce(&v, out_length, |a: f32, b: f32| a + b).unwrap();
    assert_eq!(approx(results, 4), vec![6.0, 15.0]);
}

#[test]
fn softmax() {
    let v = vec![1.0f32, 2.0, 3.0, 4.0, 5.0, 6.0];
    let last_dim = 6;
    let results = softmax_f32(&v, last_dim);
    assert_eq!(
        approx(results, 4),
        vec![0.0043, 0.0116, 0.0315, 0.0858, 0.2331, 0.6337]
    );

    let last_dim = 4096;
    let n = 200;
    let mut v = vec![0.0; n * last_dim];
    for i in 0..n {
        v[i * last_dim] = 20.0;
    }
    let results = softmax_f32(&v, last_dim);
    let results = approx(results, 4);
    println!("{results:?}");
    assert_eq!(
        results.iter().map(|&s| s.round() as usize).sum::<usize>(),
        n
    );
    assert_eq!(results[0], 1.0);
    assert_eq!(results[1], 0.0);
    assert_eq!(results[last_dim], 1.0);
    assert_eq!(results[2 * last_dim], 1.0);

    let v = vec![0.0f32, 1.0, 2.0, 3.0, 4.0, 5.0];
    let last_dim = 6;
    let results = softmax_f32(&v, last_dim);
    assert_eq!(
        approx(results, 4),
        vec![0.0043, 0.0116, 0.0315, 0.0858, 0.2331, 0.6337]
    );

    let v = vec![1.0f32, 2.0, 3.0, 4.0, 5.0, 6.0];
    let last_dim = 3;
    let results = softmax_f32(&v, last_dim);
    assert_eq!(
        approx(results, 4),
        vec![0.0900, 0.2447, 0.6652, 0.0900, 0.2447, 0.6652]
    );

    let v = vec![1.0f32, 2.0, 3.0, 4.0, 5.0, 6.0]
        .iter()
        .map(|v| f16::from_f32(*v))
        .collect::<Vec<_>>();
    let last_dim = 6;
    let results = softmax_f16(&v, last_dim);
    assert_eq!(
        approx_f16(results, 4),
        vec![0.0043, 0.0116, 0.0316, 0.0858, 0.2332, 0.6338]
    );

    let v = vec![1.0f32, 2.0, 3.0, 4.0, 5.0, 6.0]
        .iter()
        .map(|v| bf16::from_f32(*v))
        .collect::<Vec<_>>();
    let last_dim = 6;
    let results = softmax_bf16(&v, last_dim);
    assert_eq!(
        approx_bf16(results, 4),
        vec![0.0043, 0.0116, 0.0315, 0.0859, 0.2324, 0.6328]
    );
}

#[test]
fn reduce_refuses_uneven_groups() {
    let v = vec![1.0f32, 2.0, 3.0, 4.0, 5.0];
    let r = run_reduce(&v, 2, |a: f32, b: f32| a + b);
    assert_eq!(r, Err(KernelError::EncodingError(EncodingFault::BufferMismatch)));
    let r = run_reduce(&v, 0, |a: f32, b: f32| a + b);
    assert_eq!(r, Err(KernelError::EncodingError(EncodingFault::ZeroSize)));
}

#[test]
fn partitions() {
    assert_eq!(check_partition(6, 1), Ok(6));
    assert_eq!(check_partition(6, 2), Ok(3));
    assert_eq!(check_partition(6, 6), Ok(1));
    assert_eq!(check_partition(819_200, 4096), Ok(200));
    let zero = Err(KernelError::EncodingError(EncodingFault::ZeroSize));
    assert_eq!(check_partition(0, 2), zero);
    assert_eq!(check_partition(6, 0), zero);
    let uneven = Err(KernelError::EncodingError(EncodingFault::BufferMismatch));
    assert_eq!(check_partition(6, 4), uneven);
    assert_eq!(check_partition(6, 7), uneven);
}

#[test]
fn reduce_sums_from_left_to_right() {
    // With an operation that is not associative the order shows.
    let v = [1i64, 2, 3, 4, 5, 6];
    let out = run_reduce(&v, 2, |a: i64, b: i64| 10 * a + b).unwrap();
    assert_eq!(out, vec![123, 456]);
    let out = run_reduce(&v, 1, |a: i64, b: i64| 10 * a + b).unwrap();
    assert_eq!(out, vec![123456]);
    let out = run_reduce(&v, 6, |a: i64, b: i64| 10 * a + b).unwrap();
    assert_eq!(out, v.to_vec());
}

#[test]
fn softmax_rows_sum_to_one() {
    for scale in [1.0f32, 100.0, 10_000.0, -10_000.0] {
        let v: Vec<f32> = (0..12).map(|i| scale * (i as f32)).collect();
        let out = softmax_f32(&v, 4);
        for row in out.chunks(4) {
            let sum: f32 = row.iter().sum();
            assert!((sum - 1.0).abs() < 1e-5);
            assert!(row.iter().all(|x| x.is_finite()));
        }
    }
}

#[test]
fn softmax_faults() {
    let v = [1.0f32, 2.0, 3.0];
    let run = |v: &[f32], d: usize| {
        run_softmax(
            v,
            d,
            |a: f32, b: f32| a.max(b),
            |x: f32, m: f32| (x - m).exp(),
            |a: f32, b: f32| a + b,
            |a: f32, b: f32| a / b,
        )
    };
    assert_eq!(run(&v, 2), Err(KernelError::EncodingError(EncodingFault::BufferMismatch)));
    assert_eq!(run(&v, 0), Err(KernelError::EncodingError(EncodingFault::ZeroSize)));
    assert_eq!(run(&[], 3), Err(KernelError::EncodingError(EncodingFault::ZeroSize)));
}

#[test]
fn softmax_on_exact_arithmetic() {
    // With integers standing for the four operations, every step can be read off.
    let v = [3i64, 1, 2, 5, 9, 7];
    let out = run_softmax(
        &v,
        3,
        |a: i64, b: i64| a.max(b),
        |x: i64, m: i64| 100 + x - m,
        |a: i64, b: i64| a + b,
        |w: i64, s: i64| 1000 * w + s,
    )
    .unwrap();
    // Row [3, 1, 2]: max 3, weights [100, 98, 99], sum 297.
    // Row [5, 9, 7]: max 9, weights [96, 100, 98], sum 294.
    assert_eq!(out, vec![100_297, 98_297, 99_297, 96_294, 100_294, 98_294]);
}

#[test]
fn group_sums_add_up_to_the_whole() {
    let v: Vec<i64> = (1..=24).map(|x| x * x - 7).collect();
    let plus = |a: i64, b: i64| a + b;
    let whole = run_reduce(&v, 1, plus).unwrap();
    for k in [1usize, 2, 3, 4, 6, 8, 12, 24] {
        let parts = run_reduce(&v, k, plus).unwrap();
        assert_eq!(parts.len(), k);
        assert_eq!(run_reduce(&parts, 1, plus).unwrap(), whole);
    }
    // On small whole numbers floating-point addition is exact as well.
    let v: Vec<f32> = (1..=24).map(|x| x as f32).collect();
    let whole = run_reduce(&v, 1, |a: f32, b: f32| a + b).unwrap();
    let parts = run_reduce(&v, 4, |a: f32, b: f32| a + b).unwrap();
    assert_eq!(parts, vec![21.0, 57.0, 93.0, 129.0]);
    assert_eq!(parts.iter().sum::<f32>(), whole[0]);
}
