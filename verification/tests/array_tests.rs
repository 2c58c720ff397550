use cfpyo3_core::batch_searchsorted;
use cfpyo3_core::fast_concat_2d_axis0;
use cfpyo3_core::mean_axis1;
use cfpyo3_core::searchsorted;
use cfpyo3_core::to_nbytes;

fn assert_allclose_f32(a: &[f32], b: &[f32]) {
    assert_eq!(a.len(), b.len());
    for (x, y) in a.iter().zip(b.iter()) {
        assert!((x - y).abs() <= 1e-6 + 1e-6 * y.abs(), "not close: {} vs {}", x, y);
    }
}

fn assert_allclose_f64(a: &[f64], b: &[f64]) {
    assert_eq!(a.len(), b.len());
    for (x, y) in a.iter().zip(b.iter()) {
        assert!((x - y).abs() <= 1e-6 + 1e-6 * y.abs(), "not close: {} vs {}", x, y);
    }
}

#[test]
fn test_fast_concat_2d_axis0_f32() {
    let arrays: Vec<Vec<f32>> = vec![vec![1., 2., 3.], vec![4., 5., 6., 7., 8., 9.]];
    let num_rows = vec![1usize, 2];
    let mut out: Vec<f32> = vec![0.; 3 * 3];
    fast_concat_2d_axis0(&arrays, &num_rows, 3, 1, &mut out);
    assert_eq!(out.as_slice(), &[1., 2., 3., 4., 5., 6., 7., 8., 9.]);
}

#[test]
fn test_fast_concat_2d_axis0_f64() {
    let arrays: Vec<Vec<f64>> = vec![vec![1., 2., 3.], vec![4., 5., 6., 7., 8., 9.]];
    let num_rows = vec![1usize, 2];
    let mut out: Vec<f64> = vec![0.; 3 * 3];
    fast_concat_2d_axis0(&arrays, &num_rows, 3, 2, &mut out);
    assert_eq!(out.as_slice(), &[1., 2., 3., 4., 5., 6., 7., 8., 9.]);
}

#[test]
fn test_mean_axis1_f32() {
    let array: Vec<Vec<f32>> = vec![vec![1., 2., 3.], vec![4., 5., 6.]];
    let out = mean_axis1(
        &array,
        1,
        |x: f32| x.is_nan(),
        |a: f32, b: f32| a + b,
        |s: f32, c: usize| s / (c as f32),
        0.0f32,
        f32::NAN,
    );
    assert_allclose_f32(&out, &[2., 5.]);
    let out = mean_axis1(
        &array,
        2,
        |x: f32| x.is_nan(),
        |a: f32, b: f32| a + b,
        |s: f32, c: usize| s / (c as f32),
        0.0f32,
        f32::NAN,
    );
    assert_allclose_f32(&out, &[2., 5.]);
}

#[test]
fn test_mean_axis1_f64() {
    let array: Vec<Vec<f64>> = vec![vec![1., 2., 3.], vec![4., 5., 6.]];
    let out = mean_axis1(
        &array,
        1,
        |x: f64| x.is_nan(),
        |a: f64, b: f64| a + b,
        |s: f64, c: usize| s / (c as f64),
        0.0f64,
        f64::NAN,
    );
    assert_allclose_f64(&out, &[2., 5.]);
    let out = mean_axis1(
        &array,
        2,
        |x: f64| x.is_nan(),
        |a: f64, b: f64| a + b,
        |s: f64, c: usize| s / (c as f64),
        0.0f64,
        f64::NAN,
    );
    assert_allclose_f64(&out, &[2., 5.]);
}

#[test]
fn test_mean_axis1_skips_nan() {
    let array: Vec<Vec<f32>> = vec![vec![1., f32::NAN, 3.], vec![f32::NAN, f32::NAN, f32::NAN]];
    let out = mean_axis1(
        &array,
        1,
        |x: f32| x.is_nan(),
        |a: f32, b: f32| a + b,
        |s: f32, c: usize| s / (c as f32),
        0.0f32,
        f32::NAN,
    );
    assert_eq!(out.len(), 2);
    assert_eq!(out[0], 2.0);
    assert!(out[1].is_nan());
}

#[test]
fn test_searchsorted() {
    let array = vec![1i64, 2, 3, 5, 6];
    assert_eq!(searchsorted(&array, 0), 0);
    assert_eq!(searchsorted(&array, 1), 0);
    assert_eq!(searchsorted(&array, 3), 2);
    assert_eq!(searchsorted(&array, 4), 3);
    assert_eq!(searchsorted(&array, 5), 3);
    assert_eq!(searchsorted(&array, 6), 4);
    assert_eq!(searchsorted(&array, 7), 5);
    assert_eq!(batch_searchsorted(&array, &array), vec![0, 1, 2, 3, 4]);
}

#[test]
fn test_to_nbytes() {
    assert_eq!(to_nbytes::<i32>(5), 20);
}

#[test]
fn test_unique_runs() {
    let arr = vec![0i64, 0, 1, 1, 2, 2, 3, 3];
    let (vals, counts) = cfpyo3_core::unique(&arr);
    assert_eq!(vals, vec![0, 1, 2, 3]);
    assert_eq!(counts, vec![2, 2, 2, 2]);
    let arr = vec![5i64];
    let (vals, counts) = cfpyo3_core::unique(&arr);
    assert_eq!(vals, vec![5]);
    assert_eq!(counts, vec![1]);
    let (vals, counts) = cfpyo3_core::unique(&Vec::new());
    assert!(vals.is_empty() && counts.is_empty());
    let arr = vec![-3i64, -3, -3, 7];
    let (vals, counts) = cfpyo3_core::unique(&arr);
    assert_eq!(vals, vec![-3, 7]);
    assert_eq!(counts, vec![3, 1]);
}
