//! The normalization math, exercised over micro-unit fixed-point vectors:
//! one micro-unit is a millionth, so 1.0 is stored as 1_000_000.

use kvdb::errors::VecError;
use kvdb::vector::{dot_product, l2_norm};

/// The micro-unit form of a real value.
fn u(x: f64) -> i32 {
    (x * 1e6).round() as i32
}

/// Whether a micro-unit coordinate is within `tol` of a real value.
fn near(a: i32, x: f64, tol: f64) -> bool {
    ((a as f64) / 1e6 - x).abs() < tol
}

/// Whether a squared-micro-unit score is within `tol` of a real value.
fn score_near(s: i128, x: f64, tol: f64) -> bool {
    ((s as f64) / 1e12 - x).abs() < tol
}

#[test]
fn test_l2_norm_basic() {
    // [3.0, 4.0] normalizes to [0.6, 0.8], because ||[3,4]|| = 5.
    let vector = vec![u(3.0), u(4.0)];
    let result = l2_norm(&vector).unwrap();

    assert_eq!(result.len(), 2);
    assert!(near(result[0], 0.6, 1e-6));
    assert!(near(result[1], 0.8, 1e-6));
}

#[test]
fn test_l2_norm_is_unit_length() {
    // The normalized vector has length 1.
    let vector = vec![u(1.0), u(2.0), u(3.0), u(4.0)];
    let result = l2_norm(&vector).unwrap();

    let sum_sq: f64 = result.iter().map(|x| (*x as f64) / 1e6).map(|x| x * x).sum();
    let norm = sum_sq.sqrt();
    assert!((norm - 1.0).abs() < 1e-5);
}

#[test]
fn test_l2_norm_single_element() {
    let vector = vec![u(5.0)];
    let result = l2_norm(&vector).unwrap();

    assert_eq!(result.len(), 1);
    assert!(near(result[0], 1.0, 1e-6));
}

#[test]
fn test_l2_norm_negative_values() {
    let vector = vec![u(-3.0), u(4.0)];
    let result = l2_norm(&vector).unwrap();

    assert!(near(result[0], -0.6, 1e-6));
    assert!(near(result[1], 0.8, 1e-6));
}

#[test]
fn test_l2_norm_zero_vector_error() {
    let vector = vec![0, 0, 0];
    let result = l2_norm(&vector);

    assert!(result.is_err());
    assert_eq!(result.unwrap_err().message(), "Cannot normalize a zero vector");
}

#[test]
fn test_l2_norm_empty_vector() {
    let vector = vec![];
    let result = l2_norm(&vector);

    assert!(result.is_err());
    assert_eq!(result.unwrap_err().message(), "Cannot normalize an empty vector");
}

#[test]
fn test_dot_product_basic() {
    let a = vec![u(1.0), u(2.0), u(3.0)];
    let b = vec![u(4.0), u(5.0), u(6.0)];
    // 1*4 + 2*5 + 3*6 = 32, exactly: every product is exact in micro-units.
    let result = dot_product(&a, &b).unwrap();

    assert_eq!(result, 32_000_000_000_000);
    assert!(score_near(result, 32.0, 1e-6));
}

#[test]
fn test_dot_product_orthogonal() {
    let a = vec![u(1.0), u(0.0)];
    let b = vec![u(0.0), u(1.0)];
    let result = dot_product(&a, &b).unwrap();

    assert!(score_near(result, 0.0, 1e-6));
}

#[test]
fn test_dot_product_dimension_mismatch() {
    let a = vec![u(1.0), u(2.0), u(3.0)];
    let b = vec![u(4.0), u(5.0)];

    let result = dot_product(&a, &b);
    assert!(result.is_err());
    assert_eq!(result.unwrap_err().message(), "Different dimentions");
    assert!(matches!(dot_product(&a, &b), Err(VecError::DimensionMismatch)));
}

#[test]
fn test_dot_product_zero_vectors() {
    let a = vec![0, 0, 0];
    let b = vec![u(1.0), u(2.0), u(3.0)];
    let result = dot_product(&a, &b).unwrap();

    assert!(score_near(result, 0.0, 1e-6));
}

#[test]
fn test_dot_product_empty_vectors() {
    let a = vec![];
    let b = vec![];
    let result = dot_product(&a, &b).unwrap();

    assert!(score_near(result, 0.0, 1e-6));
}

#[test]
fn test_normalize_then_dot_product() {
    // Normalize two vectors, then compute their similarity.
    let v1 = vec![u(1.0), u(0.0), u(0.0)];
    let v2 = vec![u(0.7), u(0.7), u(0.0)];

    let n1 = l2_norm(&v1).unwrap();
    let n2 = l2_norm(&v2).unwrap();

    let similarity = dot_product(&n1, &n2).unwrap();

    // v2 normalized is about [0.707, 0.707, 0], so the similarity with
    // [1, 0, 0] is about 0.707.
    assert!(score_near(similarity, 0.707, 0.001));
}
