use half::f16;
use metal_kernels::elementwise::{cast, run, run_binary, run_strided};
use metal_kernels::error::{EncodingFault, KernelError};

fn approx(v: Vec<f32>, digits: i32) -> Vec<f32> {
    let b = 10f32.powi(digits);
    v.iter().map(|t| f32::round(t * b) / b).collect()
}

fn approx_f16(v: Vec<f16>, digits: i32) -> Vec<f32> {
    let b = 10f32.powi(digits);
    v.iter().map(|t| f32::round(t.to_f32() * b) / b).collect()
}

fn cos(x: f32) -> f32 {
    x.cos()
}

fn cos_half(x: f16) -> f16 {
    f16::from_f32(x.to_f32().cos())
}

fn gelu(x: f32) -> f32 {
    let k = (2.0f32 / std::f32::consts::PI).sqrt();
    0.5 * x * (1.0 + (k * x * (1.0 + 0.044715 * x * x)).tanh())
}

fn gelu_half(x: f16) -> f16 {
    f16::from_f32(gelu(x.to_f32()))
}

#[test]
fn cos_f32() {
    let v = vec![1.0f32, 2.0, 3.0];
    let results = run(&v, cos).unwrap();
    let expected: Vec<_> = v.iter().map(|v| v.cos()).collect();
    assert_eq!(approx(results, 4), vec![0.5403, -0.4161, -0.99]);
    assert_eq!(approx(expected, 4), vec![0.5403, -0.4161, -0.99]);

    let v = vec![1.0f32; 10_000];
    let results = run(&v, cos).unwrap();
    let expected: Vec<_> = v.iter().map(|v| v.cos()).collect();
    assert_eq!(approx(results, 4), vec![0.5403; 10_000]);
    assert_eq!(approx(expected, 4), vec![0.5403; 10_000]);
}

#[test]
fn cos_f32_strided() {
    let v = vec![1.0f32, 2.0, 3.0, 4.0, 5.0, 6.0];
    let shape = vec![6];
    let strides = vec![1];
    let offset = 0;
    let results = run_strided(&v, cos, &shape, &strides, offset).unwrap();
    let expected: Vec<_> = v.iter().map(|v| v.cos()).collect();
    assert_eq!(
        approx(results, 4),
        vec![0.5403, -0.4161, -0.99, -0.6536, 0.2837, 0.9602]
    );
    assert_eq!(
        approx(expected, 4),
        vec![0.5403, -0.4161, -0.99, -0.6536, 0.2837, 0.9602]
    );

    // Contiguous
    let v = vec![1.0f32, 2.0, 3.0, 4.0, 5.0, 6.0];
    let shape = vec![3, 2];
    let strides = vec![2, 1];
    let offset = 0;
    let results = run_strided(&v, cos, &shape, &strides, offset).unwrap();
    let expected: Vec<_> = v.iter().map(|v| v.cos()).collect();
    assert_eq!(
        approx(results, 4),
        vec![0.5403, -0.4161, -0.99, -0.6536, 0.2837, 0.9602]
    );
    assert_eq!(
        approx(expected, 4),
        vec![0.5403, -0.4161, -0.99, -0.6536, 0.2837, 0.9602]
    );

    // Transposed
    let v = vec![1.0f32, 2.0, 3.0, 4.0, 5.0, 6.0];
    let shape = vec![3, 2];
    let strides = vec![1, 3];
    let offset = 0;
    let results = run_strided(&v, cos, &shape, &strides, offset).unwrap();
    let expected: Vec<_> = v.iter().map(|v| v.cos()).collect();
    assert_eq!(
        approx(results, 4),
        vec![0.5403, -0.6536, -0.4161, 0.2837, -0.99, 0.9602]
    );
    assert_eq!(
        approx(expected, 4),
        vec![0.5403, -0.4161, -0.99, -0.6536, 0.2837, 0.9602]
    );

    // Very large
    let v = vec![1.0f32; 10_000];
    let shape = vec![2, 5_000];
    let strides = vec![2, 1];
    let offset = 0;
    let results = run_strided(&v, cos, &shape, &strides, offset).unwrap();
    let expected: Vec<_> = v.iter().map(|v| v.cos()).collect();
    assert_eq!(approx(results, 4), vec![0.5403; 10_000]);
    assert_eq!(approx(expected, 4), vec![0.5403; 10_000]);
}

#[test]
fn cos_strided_random() {
    let v: Vec<_> = (0..10_000).map(|_| rand::random::<f32>()).collect();
    let shape = vec![5_000, 2];
    let strides = vec![1, 5_000];
    let offset = 0;
    let results = run_strided(&v, cos, &shape, &strides, offset).unwrap();
    let expected: Vec<_> = v.iter().map(|v| v.cos()).collect();
    assert_eq!(approx(vec![results[0]], 4), approx(vec![expected[0]], 4));
    assert_eq!(
        approx(vec![results[1]], 4),
        approx(vec![expected[5_000]], 4)
    );
    assert_eq!(approx(vec![results[2]], 4), approx(vec![expected[1]], 4));
    assert_eq!(
        approx(vec![results[3]], 4),
        approx(vec![expected[5_001]], 4)
    );
    assert_eq!(
        approx(vec![results[5_000]], 4),
        approx(vec![expected[2_500]], 4)
    );
}

#[test]
fn gelu_f16() {
    let v: Vec<f16> = [-10f32, -1.0, 0., 1., 2., 3., 10.0, 20.0]
        .iter()
        .map(|v| f16::from_f32(*v))
        .collect();
    let expected: Vec<f32> = vec![-0.0, -0.16, 0.0, 0.84, 1.96, 3.0, 10.0, 20.0];
    let results = run(&v, gelu_half).unwrap();
    assert_eq!(approx_f16(results, 2), expected);
}

#[test]
fn gelu_f32() {
    let v: Vec<f32> = vec![-10f32, -1.0, 0., 1., 2., 3., 10.0, 20.0];
    let expected: Vec<f32> = vec![-0.0, -0.159, 0.0, 0.841, 1.955, 2.996, 10.0, 20.0];
    let results = run(&v, gelu).unwrap();
    assert_eq!(approx(results, 3), expected);
}

#[test]
fn binary_add_f32() {
    let left = vec![1.0f32, 2.0, 3.0];
    let right = vec![2.0f32, 3.1, 4.2];
    let results = run_binary(&left, &right, |x: f32, y: f32| x + y).unwrap();
    let expected: Vec<_> = left
        .iter()
        .zip(right.iter())
        .map(|(&x, &y)| x + y)
        .collect();
    assert_eq!(approx(results, 4), vec![3.0f32, 5.1, 7.2]);
    assert_eq!(approx(expected, 4), vec![3.0f32, 5.1, 7.2]);
}

#[test]
fn cast_u32_f32() {
    let v = vec![1u32, 2, 3];
    let results = cast(&v, |x: u32| x as f32).unwrap();
    let expected: Vec<_> = v.iter().map(|&v| v as f32).collect();
    assert_eq!(approx(results, 4), vec![1.0f32, 2.0, 3.0]);
    assert_eq!(approx(expected, 4), vec![1.0f32, 2.0, 3.0]);

    let v = vec![1.0f32, 2.0, 3.0];
    let input: Vec<f16> = v.iter().map(|v| f16::from_f32(*v)).collect();
    let results: Vec<f32> = cast(&input, |x: f16| x.to_f32()).unwrap();
    assert_eq!(results, vec![1.0f32, 2.0, 3.0]);

    let v = vec![1.0f32; 10_000];
    let input: Vec<f16> = v.iter().map(|v| f16::from_f32(*v)).collect();
    let results: Vec<f32> = cast(&input, |x: f16| x.to_f32()).unwrap();
    assert_eq!(results.len(), 10_000);
    assert_eq!(&results[..10], vec![1.0f32; 10]);
    assert_eq!(results, vec![1.0f32; 10_000]);
}

#[test]
fn cos_f16() {
    let v: Vec<f16> = [1.0f32, 2.0, 3.0]
        .iter()
        .map(|v| f16::from_f32(*v))
        .collect();
    let results = run(&v, cos_half).unwrap();
    let expected: Vec<f16> = v.iter().map(|v| f16::from_f32(v.to_f32().cos())).collect();
    assert_eq!(approx_f16(results, 2), vec![0.54, -0.42, -0.99]);
    assert_eq!(approx_f16(expected, 2), vec![0.54, -0.42, -0.99]);
}

#[test]
fn empty_input_is_refused() {
    let v: Vec<f32> = vec![];
    let zero = Err(KernelError::EncodingError(EncodingFault::ZeroSize));
    assert_eq!(run(&v, cos), zero);
    assert_eq!(cast(&v, |x: f32| x as u32), Err(KernelError::EncodingError(EncodingFault::ZeroSize)));
    assert_eq!(run_binary(&v, &v, |x: f32, y: f32| x + y), zero);
}

#[test]
fn binary_refuses_operands_of_different_length() {
    let left = vec![1u32, 2, 3];
    let right = vec![1u32, 2];
    assert_eq!(
        run_binary(&left, &right, |x: u32, y: u32| x.wrapping_add(y)),
        Err(KernelError::EncodingError(EncodingFault::BufferMismatch))
    );
}

#[test]
fn strided_equals_contiguous_on_the_same_logical_tensor() {
    // The same 2 x 3 tensor, stored row-major and stored transposed with an offset.
    let row_major = vec![1i64, 2, 3, 4, 5, 6];
    let transposed = vec![0i64, 0, 1, 4, 2, 5, 3, 6];
    let double = |x: i64| 2 * x;
    let flat = run(&row_major, double).unwrap();
    let a = run_strided(&row_major, double, &[2, 3], &[3, 1], 0).unwrap();
    let b = run_strided(&transposed, double, &[2, 3], &[1, 2], 2).unwrap();
    assert_eq!(flat, vec![2, 4, 6, 8, 10, 12]);
    assert_eq!(a, flat);
    // The output is as long as the buffer; what follows the view's elements is the buffer's own.
    assert_eq!(b.len(), transposed.len());
    assert_eq!(b[..6], flat[..]);
    assert_eq!(b[6..], transposed[6..]);
}

#[test]
fn strided_output_is_as_long_as_the_buffer() {
    let v = vec![1i64, 2, 3, 4, 5, 6];
    let negate = |x: i64| -x;
    assert_eq!(run_strided(&v, negate, &[2], &[1], 0), Ok(vec![-1, -2, 3, 4, 5, 6]));
    assert_eq!(run_strided(&v, negate, &[2], &[3], 2), Ok(vec![-3, -6, 3, 4, 5, 6]));
    assert_eq!(run_strided(&v, negate, &[2, 2], &[1, 2], 1), Ok(vec![-2, -4, -3, -5, 5, 6]));
    assert_eq!(run_strided(&v, negate, &[], &[], 5), Ok(vec![-6, 2, 3, 4, 5, 6]));
    // A view of more elements than the buffer holds has no room in the output.
    assert_eq!(
        run_strided(&v, negate, &[7], &[0], 0),
        Err(KernelError::EncodingError(EncodingFault::BufferMismatch))
    );
    assert_eq!(run_strided(&v, negate, &[6], &[0], 0), Ok(vec![-1; 6]));
}

#[test]
fn strided_faults() {
    let v = vec![1u32, 2, 3, 4];
    let id = |x: u32| x;
    assert_eq!(
        run_strided(&v, id, &[2, 2], &[1], 0),
        Err(KernelError::EncodingError(EncodingFault::RankMismatch))
    );
    assert_eq!(
        run_strided(&v, id, &[2, 0], &[2, 1], 0),
        Err(KernelError::EncodingError(EncodingFault::ZeroSize))
    );
    assert_eq!(
        run_strided(&v, id, &[2, 2], &[2, 1], 1),
        Err(KernelError::EncodingError(EncodingFault::BufferMismatch))
    );
    assert_eq!(
        run_strided(&v, id, &[usize::MAX, 2], &[0, 1], 0),
        Err(KernelError::EncodingError(EncodingFault::BufferMismatch))
    );
    // A broadcast view reads one element many times.
    assert_eq!(run_strided(&v, id, &[3], &[0], 3), Ok(vec![4, 4, 4, 4]));
    assert_eq!(run_strided(&v, id, &[3], &[0], 0), Ok(vec![1, 1, 1, 4]));
    // The empty shape addresses the single element at the offset.
    assert_eq!(run_strided(&v, id, &[], &[], 2), Ok(vec![3, 2, 3, 4]));
}
