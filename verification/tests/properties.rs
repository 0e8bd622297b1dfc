//! End-to-end scenarios: the store's headline guarantees exercised on
//! concrete values, one scenario per test.

use kvdb::db::{InsertOutcome, VecDB};
use kvdb::errors::VecError;
use kvdb::vector::l2_norm;

/// The micro-unit form of a real value.
fn u(x: f64) -> i32 {
    (x * 1e6).round() as i32
}

/// Whether a micro-unit coordinate is within `tol` of a real value.
fn near(a: i32, x: f64, tol: f64) -> bool {
    ((a as f64) / 1e6 - x).abs() < tol
}

/// Whether a squared-micro-unit score is within `tol` of a real value.
fn score_near(s: i128, x: f64, tol: f64) -> bool {
    ((s as f64) / 1e12 - x).abs() < tol
}

/// The squared length of a micro-unit vector, in real units.
fn norm_of(v: &[i32]) -> f64 {
    v.iter().map(|x| (*x as f64) / 1e6).map(|x| x * x).sum::<f64>().sqrt()
}

#[test]
fn test_inserted_vectors_are_unit_length() {
    // Every stored or queried vector is kept L2-normalized within 1e-5.
    let mut db = VecDB::new();
    db.insert("a".to_string(), vec![u(3.0), u(4.0), u(0.1)]).unwrap();
    db.insert("b".to_string(), vec![u(-0.003), u(0.001), u(0.002)]).unwrap();
    db.insert("c".to_string(), vec![u(2000.0), u(-1.0), u(0.5)]).unwrap();

    for (_, v) in db.list() {
        assert!((norm_of(&v) - 1.0).abs() < 1e-5);
    }
    let q = l2_norm(&vec![u(0.0), u(0.0), u(7.5)]).unwrap();
    assert!((norm_of(&q) - 1.0).abs() < 1e-5);
}

#[test]
fn test_dimension_locks_in_on_first_insert() {
    let mut db = VecDB::new();
    db.insert("a".to_string(), vec![u(1.0), u(2.0)]).unwrap();
    assert_eq!(db.dimension(), Some(2));

    // A different width is turned away and changes nothing.
    assert!(matches!(
        db.insert("b".to_string(), vec![u(1.0)]),
        Err(VecError::DimensionMismatch)
    ));
    assert_eq!(db.count(), 1);
    assert!(matches!(
        db.search(vec![u(1.0), u(2.0), u(3.0)], 1),
        Err(VecError::DimensionMismatch)
    ));

    // Deleting everything does not unlock the dimension.
    db.delete("a").unwrap();
    assert_eq!(db.dimension(), Some(2));
    assert!(matches!(
        db.insert("c".to_string(), vec![u(1.0), u(2.0), u(3.0)]),
        Err(VecError::DimensionMismatch)
    ));
}

#[test]
fn test_search_scores_never_increase() {
    let mut db = VecDB::new();
    db.insert("a".to_string(), vec![u(1.0), u(0.0), u(0.0)]).unwrap();
    db.insert("b".to_string(), vec![u(0.5), u(0.5), u(0.0)]).unwrap();
    db.insert("c".to_string(), vec![u(0.0), u(1.0), u(0.0)]).unwrap();
    db.insert("d".to_string(), vec![u(0.9), u(0.1), u(0.0)]).unwrap();

    let k = 3;
    let results = db.search(vec![u(1.0), u(0.1), u(0.0)], k).unwrap();
    assert_eq!(results.len(), k);
    for w in results.windows(2) {
        assert!(w[0].2 >= w[1].2);
    }
}

#[test]
fn test_upsert_overwrites_in_place() {
    let mut db = VecDB::new();
    db.insert("a".to_string(), vec![u(1.0), u(0.0)]).unwrap();
    db.insert("b".to_string(), vec![u(0.0), u(1.0)]).unwrap();

    let outcome = db.insert("a".to_string(), vec![u(3.0), u(4.0)]).unwrap();
    assert!(matches!(outcome, InsertOutcome::Updated(_)));

    // The count is unchanged and the record now holds the new vector.
    assert_eq!(db.count(), 2);
    let v = db.get("a").unwrap();
    assert!(near(v[0], 0.6, 1e-5));
    assert!(near(v[1], 0.8, 1e-5));
    // The storage order is also unchanged.
    assert_eq!(db.list()[0].0, "a");
    assert_eq!(db.list()[1].0, "b");
}

#[test]
fn test_insert_reports_fresh_and_updated() {
    let mut db = VecDB::new();
    let first = db.insert("a".to_string(), vec![u(1.0)]).unwrap();
    assert!(matches!(first, InsertOutcome::Inserted));
    assert_eq!(first.message(), "Inserted to database with id");

    let second = db.insert("a".to_string(), vec![u(2.0)]).unwrap();
    assert_eq!(second.message(), "Updated vector with id: a");
}

#[test]
fn test_delete_then_reinsert_same_id() {
    let mut db = VecDB::new();
    db.insert("a".to_string(), vec![u(1.0), u(0.0)]).unwrap();
    db.insert("b".to_string(), vec![u(0.0), u(1.0)]).unwrap();

    assert_eq!(db.delete("a").unwrap(), "Success Delete");
    assert!(db.get("a").is_none());
    assert!(db.get("b").is_some());

    let outcome = db.insert("a".to_string(), vec![u(0.6), u(0.8)]).unwrap();
    assert!(matches!(outcome, InsertOutcome::Inserted));
    let v = db.get("a").unwrap();
    assert!(near(v[0], 0.6, 1e-5));
    assert!(near(v[1], 0.8, 1e-5));
}

#[test]
fn test_scenario_normalized_get() {
    // Insert "a" <- [3, 4]; get("a") reads [0.6, 0.8].
    let mut db = VecDB::new();
    db.insert("a".to_string(), vec![u(3.0), u(4.0)]).unwrap();
    let v = db.get("a").unwrap();
    assert_eq!(v, vec![600000, 800000]);
}

#[test]
fn test_scenario_two_best_matches_in_order() {
    // Insert a, b, c; the two best matches for [1,0,0] are a (about 1.0)
    // and c (about 0.707), in that order.
    let mut db = VecDB::new();
    db.insert("a".to_string(), vec![u(1.0), u(0.0), u(0.0)]).unwrap();
    db.insert("b".to_string(), vec![u(0.0), u(1.0), u(0.0)]).unwrap();
    db.insert("c".to_string(), vec![u(0.7), u(0.7), u(0.0)]).unwrap();

    let results = db.search(vec![u(1.0), u(0.0), u(0.0)], 2).unwrap();
    assert_eq!(results.len(), 2);
    assert_eq!(results[0].0, "a");
    assert!(score_near(results[0].2, 1.0, 1e-5));
    assert_eq!(results[1].0, "c");
    assert!(score_near(results[1].2, 0.7071, 1e-3));
}

#[test]
fn test_scenario_delete_leaves_others() {
    let mut db = VecDB::new();
    db.insert("a".to_string(), vec![u(1.0), u(0.0)]).unwrap();
    db.insert("b".to_string(), vec![u(0.0), u(1.0)]).unwrap();

    db.delete("a").unwrap();
    assert!(db.get("a").is_none());
    assert!(db.get("b").is_some());
}

#[test]
fn test_scenario_empty_insert_rejected_store_unchanged() {
    // Insert "x" <- [] fails with the empty-vector error and the store is
    // exactly as it was.
    let mut db = VecDB::new();
    let result = db.insert("x".to_string(), vec![]);
    assert!(matches!(result, Err(VecError::EmptyVector)));
    assert_eq!(result.unwrap_err().message(), "Cannot normalize an empty vector");
    assert_eq!(db.count(), 0);
    assert_eq!(db.dimension(), None);
    assert_eq!(db.data_len(), 0);
}

#[test]
fn test_zero_vector_rejected_everywhere() {
    let mut db = VecDB::new();
    assert!(matches!(
        db.insert("z".to_string(), vec![0, 0]),
        Err(VecError::ZeroVector)
    ));
    assert_eq!(db.count(), 0);

    db.insert("a".to_string(), vec![u(1.0), u(0.0)]).unwrap();
    assert!(matches!(db.search(vec![0, 0], 1), Err(VecError::ZeroVector)));
}

#[test]
fn test_error_variants_and_messages() {
    let mut db = VecDB::new();

    // Searching a store that was never written to.
    let e = db.search(vec![u(1.0)], 1).unwrap_err();
    assert!(matches!(e, VecError::EmptyDatabase));
    assert_eq!(e.message(), "Empty database");

    // Deleting from a store that was never written to.
    let e = db.delete("a").unwrap_err();
    assert!(matches!(e, VecError::EmptyStore));
    assert_eq!(e.message(), "Cannot delete on empty database");

    db.insert("a".to_string(), vec![u(1.0)]).unwrap();

    // A missing identifier.
    let e = db.delete("b").unwrap_err();
    assert!(matches!(e, VecError::NotFound));

    // A mismatched width.
    let e = db.insert("b".to_string(), vec![u(1.0), u(2.0)]).unwrap_err();
    assert!(matches!(e, VecError::DimensionMismatch));
}

#[test]
fn test_ties_break_by_storage_order() {
    // Two records at the same angle from the query: the earlier one wins.
    let mut db = VecDB::new();
    db.insert("late".to_string(), vec![u(0.0), u(1.0)]).unwrap();
    db.delete("late").unwrap();
    db.insert("first".to_string(), vec![u(2.0), u(0.0)]).unwrap();
    db.insert("second".to_string(), vec![u(5.0), u(0.0)]).unwrap();

    let results = db.search(vec![u(1.0), u(0.0)], 2).unwrap();
    assert_eq!(results[0].0, "first");
    assert_eq!(results[1].0, "second");
    assert_eq!(results[0].2, results[1].2);
}

#[test]
fn test_count_and_list_follow_storage_order() {
    let mut db = VecDB::new();
    assert_eq!(db.count(), 0);
    db.insert("x".to_string(), vec![u(1.0), u(0.0)]).unwrap();
    db.insert("y".to_string(), vec![u(0.0), u(1.0)]).unwrap();
    db.insert("z".to_string(), vec![u(1.0), u(1.0)]).unwrap();
    db.delete("y").unwrap();

    let listed = db.list();
    assert_eq!(db.count(), 2);
    assert_eq!(listed.len(), 2);
    assert_eq!(listed[0].0, "x");
    assert_eq!(listed[1].0, "z");
}
