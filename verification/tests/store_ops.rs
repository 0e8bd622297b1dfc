//! The store's insert, get, delete, list, count and search operations, over
//! micro-unit fixed-point vectors (1.0 is stored as 1_000_000).

use kvdb::db::VecDB;

/// The micro-unit form of a real value.
fn u(x: f64) -> i32 {
    (x * 1e6).round() as i32
}

/// Whether a micro-unit coordinate is within `tol` of a real value.
fn near(a: i32, x: f64, tol: f64) -> bool {
    ((a as f64) / 1e6 - x).abs() < tol
}

/// Whether a squared-micro-unit score is within `tol` of a real value.
fn score_near(s: i128, x: f64, tol: f64) -> bool {
    ((s as f64) / 1e12 - x).abs() < tol
}

#[test]
fn test_insert_single_vector() {
    let mut db = VecDB::new();
    let result = db.insert("vec1".to_string(), vec![u(1.0), u(2.0), u(3.0)]);

    assert!(result.is_ok());
    assert_eq!(db.count(), 1);
    assert_eq!(db.list()[0].0, "vec1");
    assert_eq!(db.dimension(), Some(3));
    // Vectors are stored normalized, one record of three coordinates.
    assert_eq!(db.data_len(), 3);
}

#[test]
fn test_insert_multiple_vectors() {
    let mut db = VecDB::new();

    db.insert("vec1".to_string(), vec![u(1.0), u(0.0), u(0.0)]).unwrap();
    db.insert("vec2".to_string(), vec![u(0.0), u(1.0), u(0.0)]).unwrap();
    db.insert("vec3".to_string(), vec![u(0.0), u(0.0), u(1.0)]).unwrap();

    assert_eq!(db.count(), 3);
    assert_eq!(db.data_len(), 9); // 3 vectors x 3 dimensions
}

#[test]
fn test_insert_dimension_mismatch() {
    let mut db = VecDB::new();

    db.insert("vec1".to_string(), vec![u(1.0), u(2.0), u(3.0)]).unwrap();
    let result = db.insert("vec2".to_string(), vec![u(1.0), u(2.0)]); // Wrong dimension

    assert!(result.is_err());
    assert_eq!(db.count(), 1); // Only the first vector was kept
}

#[test]
fn test_get_vector() {
    let mut db = VecDB::new();

    db.insert("vec1".to_string(), vec![u(3.0), u(4.0)]).unwrap();
    db.insert("vec2".to_string(), vec![u(5.0), u(12.0)]).unwrap();

    // First record: normalized [3,4] = [0.6, 0.8]
    let v1 = db.get_vector(0);
    assert_eq!(v1.len(), 2);
    assert!(near(v1[0], 0.6, 1e-5));
    assert!(near(v1[1], 0.8, 1e-5));

    // Second record: normalized [5,12] = [~0.38, ~0.92]
    let v2 = db.get_vector(1);
    assert_eq!(v2.len(), 2);
    assert!(near(v2[0], 0.384615, 1e-5));
    assert!(near(v2[1], 0.923077, 1e-5));
}

#[test]
fn test_search_basic() {
    let mut db = VecDB::new();

    db.insert("vec1".to_string(), vec![u(1.0), u(0.0), u(0.0)]).unwrap();
    db.insert("vec2".to_string(), vec![u(0.0), u(1.0), u(0.0)]).unwrap();
    db.insert("vec3".to_string(), vec![u(0.7), u(0.7), u(0.0)]).unwrap();

    // Search for a vector close to vec1.
    let results = db.search(vec![u(1.0), u(0.0), u(0.0)], 2).unwrap();

    assert_eq!(results.len(), 2);
    // The first result is vec1 itself, with similarity 1.0.
    assert_eq!(results[0].0, "vec1");
    assert!(score_near(results[0].2, 1.0, 1e-5));
}

#[test]
fn test_search_returns_top_k() {
    let mut db = VecDB::new();

    db.insert("vec1".to_string(), vec![u(1.0), u(0.0)]).unwrap();
    db.insert("vec2".to_string(), vec![u(0.0), u(1.0)]).unwrap();
    db.insert("vec3".to_string(), vec![u(0.5), u(0.5)]).unwrap();

    // Ask for the top 2 of 3.
    let results = db.search(vec![u(1.0), u(1.0)], 2).unwrap();

    assert_eq!(results.len(), 2);
}

#[test]
fn test_search_empty_database() {
    let db = VecDB::new();

    let result = db.search(vec![u(1.0), u(2.0)], 5);
    assert!(result.is_err());
}

#[test]
fn test_search_dimension_mismatch() {
    let mut db = VecDB::new();
    db.insert("vec1".to_string(), vec![u(1.0), u(2.0), u(3.0)]).unwrap();

    let result = db.search(vec![u(1.0), u(2.0)], 1); // Wrong dimension
    assert!(result.is_err());
}

#[test]
fn test_get_existing_vector() {
    let mut db = VecDB::new();
    db.insert("vec1".to_string(), vec![u(3.0), u(4.0)]).unwrap();

    let result = db.get("vec1");
    assert!(result.is_some());

    let vec = result.unwrap();
    assert_eq!(vec.len(), 2);
    // Stored normalized: [3,4] -> [0.6, 0.8]
    assert!(near(vec[0], 0.6, 1e-5));
    assert!(near(vec[1], 0.8, 1e-5));
}

#[test]
fn test_get_nonexistent_vector() {
    let mut db = VecDB::new();
    db.insert("vec1".to_string(), vec![u(1.0), u(2.0)]).unwrap();

    let result = db.get("vec2");
    assert!(result.is_none());
}

#[test]
fn test_get_from_empty_database() {
    let db = VecDB::new();

    let result = db.get("vec1");
    assert!(result.is_none());
}

#[test]
fn test_delete_existing_vector() {
    let mut db = VecDB::new();
    db.insert("vec1".to_string(), vec![u(1.0), u(2.0)]).unwrap();
    db.insert("vec2".to_string(), vec![u(3.0), u(4.0)]).unwrap();

    let result = db.delete("vec1");
    assert!(result.is_ok());

    // vec1 is gone.
    assert!(db.get("vec1").is_none());

    // vec2 is still there.
    assert!(db.get("vec2").is_some());

    assert_eq!(db.count(), 1);
    assert_eq!(db.data_len(), 2); // 1 vector x 2 dimensions
}

#[test]
fn test_delete_nonexistent_vector() {
    let mut db = VecDB::new();
    db.insert("vec1".to_string(), vec![u(1.0), u(2.0)]).unwrap();

    let result = db.delete("vec2");
    assert!(result.is_err());
    assert_eq!(result.unwrap_err().message(), "ID not found");

    // The original data is intact.
    assert_eq!(db.count(), 1);
}

#[test]
fn test_delete_from_empty_database() {
    let mut db = VecDB::new();

    let result = db.delete("vec1");
    assert!(result.is_err());
    assert_eq!(result.unwrap_err().message(), "Cannot delete on empty database");
}

#[test]
fn test_delete_first_vector() {
    let mut db = VecDB::new();
    db.insert("vec1".to_string(), vec![u(1.0), u(0.0), u(0.0)]).unwrap();
    db.insert("vec2".to_string(), vec![u(0.0), u(1.0), u(0.0)]).unwrap();
    db.insert("vec3".to_string(), vec![u(0.0), u(0.0), u(1.0)]).unwrap();

    db.delete("vec1").unwrap();

    // vec1 is gone.
    assert!(db.get("vec1").is_none());

    // vec2 and vec3 are still reachable.
    let v2 = db.get("vec2").unwrap();
    assert!(near(v2[1], 1.0, 1e-5));

    let v3 = db.get("vec3").unwrap();
    assert!(near(v3[2], 1.0, 1e-5));

    assert_eq!(db.count(), 2);
    assert_eq!(db.data_len(), 6); // 2 vectors x 3 dimensions
}

#[test]
fn test_delete_middle_vector() {
    let mut db = VecDB::new();
    db.insert("vec1".to_string(), vec![u(1.0), u(0.0)]).unwrap();
    db.insert("vec2".to_string(), vec![u(0.0), u(1.0)]).unwrap();
    db.insert("vec3".to_string(), vec![u(1.0), u(1.0)]).unwrap();

    db.delete("vec2").unwrap();

    // vec2 is gone.
    assert!(db.get("vec2").is_none());

    // vec1 and vec3 are still correct.
    assert!(db.get("vec1").is_some());
    assert!(db.get("vec3").is_some());

    assert_eq!(db.count(), 2);
    assert_eq!(db.data_len(), 4); // 2 vectors x 2 dimensions
}

#[test]
fn test_delete_last_vector() {
    let mut db = VecDB::new();
    db.insert("vec1".to_string(), vec![u(1.0), u(2.0), u(3.0)]).unwrap();
    db.insert("vec2".to_string(), vec![u(4.0), u(5.0), u(6.0)]).unwrap();
    db.insert("vec3".to_string(), vec![u(7.0), u(8.0), u(9.0)]).unwrap();

    db.delete("vec3").unwrap();

    // vec3 is gone.
    assert!(db.get("vec3").is_none());

    // vec1 and vec2 are still there.
    assert!(db.get("vec1").is_some());
    assert!(db.get("vec2").is_some());

    assert_eq!(db.count(), 2);
    assert_eq!(db.data_len(), 6); // 2 vectors x 3 dimensions
}

#[test]
fn test_delete_all_vectors_sequentially() {
    let mut db = VecDB::new();
    db.insert("vec1".to_string(), vec![u(1.0), u(2.0)]).unwrap();
    db.insert("vec2".to_string(), vec![u(3.0), u(4.0)]).unwrap();

    db.delete("vec1").unwrap();
    assert_eq!(db.count(), 1);

    db.delete("vec2").unwrap();
    assert_eq!(db.count(), 0);
    assert_eq!(db.data_len(), 0);
}

#[test]
fn test_insert_after_delete() {
    let mut db = VecDB::new();
    db.insert("vec1".to_string(), vec![u(1.0), u(2.0)]).unwrap();
    db.delete("vec1").unwrap();

    // The same identifier can be inserted again.
    let result = db.insert("vec1".to_string(), vec![u(3.0), u(4.0)]);
    assert!(result.is_ok());

    let vec = db.get("vec1").unwrap();
    // Normalized [3,4] = [0.6, 0.8]
    assert!(near(vec[0], 0.6, 1e-5));
}
