//! The binary codec: a store serialized into one byte image and rebuilt
//! from it. The file layer around the codec lives outside the library; these
//! tests drive the codec on in-memory images.

use kvdb::codec::{decode, encode};
use kvdb::db::VecDB;
use kvdb::errors::VecError;

/// The micro-unit form of a real value.
fn u(x: f64) -> i32 {
    (x * 1e6).round() as i32
}

/// Whether a micro-unit coordinate is within `tol` of a real value.
fn near(a: i32, x: f64, tol: f64) -> bool {
    ((a as f64) / 1e6 - x).abs() < tol
}

/// Whether a squared-micro-unit score is within `tol` of a real value.
fn score_near(s: i128, x: f64, tol: f64) -> bool {
    ((s as f64) / 1e12 - x).abs() < tol
}

#[test]
fn test_save_and_load() {
    let mut db = VecDB::new();
    db.insert("vec1".to_string(), vec![u(1.0), u(0.0), u(0.0)]).unwrap();
    db.insert("vec2".to_string(), vec![u(0.0), u(1.0), u(0.0)]).unwrap();
    db.insert("vec3".to_string(), vec![u(0.0), u(0.0), u(1.0)]).unwrap();

    let image = encode(&db);

    let loaded = decode(&image).unwrap();
    assert_eq!(loaded.count(), 3);
    assert_eq!(loaded.dimension(), Some(3));

    // The vectors survive unchanged.
    let v1 = loaded.get("vec1").unwrap();
    assert!(near(v1[0], 1.0, 1e-5));
    assert!(near(v1[1], 0.0, 1e-5));

    let v2 = loaded.get("vec2").unwrap();
    assert!(near(v2[1], 1.0, 1e-5));

    let v3 = loaded.get("vec3").unwrap();
    assert!(near(v3[2], 1.0, 1e-5));
}

#[test]
fn test_save_and_load_empty_db() {
    let db = VecDB::new();
    let image = encode(&db);

    let loaded = decode(&image).unwrap();
    assert_eq!(loaded.count(), 0);
    assert_eq!(loaded.dimension(), None);
}

#[test]
fn test_save_load_preserves_search() {
    let mut db = VecDB::new();
    db.insert("vec1".to_string(), vec![u(1.0), u(0.0)]).unwrap();
    db.insert("vec2".to_string(), vec![u(0.0), u(1.0)]).unwrap();
    db.insert("vec3".to_string(), vec![u(0.7), u(0.7)]).unwrap();

    let image = encode(&db);
    let loaded = decode(&image).unwrap();

    // Searching the reloaded store gives the same results.
    let results = loaded.search(vec![u(1.0), u(0.0)], 2).unwrap();
    assert_eq!(results.len(), 2);
    assert_eq!(results[0].0, "vec1");
    assert!(score_near(results[0].2, 1.0, 1e-5));

    let before = db.search(vec![u(1.0), u(0.0)], 2).unwrap();
    assert_eq!(before, results);
}

#[test]
fn test_save_overwrite() {
    // Writing a second image over the first replaces it entirely.
    let mut db = VecDB::new();
    db.insert("old".to_string(), vec![u(1.0), u(0.0)]).unwrap();
    let mut image = encode(&db);

    let mut db2 = VecDB::new();
    db2.insert("new1".to_string(), vec![u(1.0), u(0.0), u(0.0)]).unwrap();
    db2.insert("new2".to_string(), vec![u(0.0), u(1.0), u(0.0)]).unwrap();
    image = encode(&db2);

    let loaded = decode(&image).unwrap();
    assert_eq!(loaded.count(), 2);
    assert!(loaded.get("old").is_none());
    assert!(loaded.get("new1").is_some());
    assert!(loaded.get("new2").is_some());
}

#[test]
fn test_roundtrip_keeps_id_order_and_unicode() {
    // A non-ASCII identifier must survive the UTF-8 leg of the codec; a
    // codec that mangled the bytes would fail here.
    let mut db = VecDB::new();
    db.insert("plain".to_string(), vec![u(0.0), u(2.0)]).unwrap();
    db.insert("h\u{e9}llo \u{2192}".to_string(), vec![u(1.0), u(1.0)]).unwrap();

    let image = encode(&db);
    let loaded = decode(&image).unwrap();

    assert_eq!(loaded.count(), 2);
    let listed = loaded.list();
    assert_eq!(listed[0].0, "plain");
    assert_eq!(listed[1].0, "h\u{e9}llo \u{2192}");
    let v = loaded.get("h\u{e9}llo \u{2192}").unwrap();
    assert!(near(v[0], 0.70710678, 1e-5));
}

#[test]
fn test_decode_rejects_corrupt_images() {
    // Too short for even a record count.
    assert!(matches!(decode(&vec![1, 2, 3]), Err(VecError::CorruptData)));

    // A valid image with its tail cut off.
    let mut db = VecDB::new();
    db.insert("vec1".to_string(), vec![u(3.0), u(4.0)]).unwrap();
    let image = encode(&db);
    let cut = image[..image.len() - 1].to_vec();
    assert!(matches!(decode(&cut), Err(VecError::CorruptData)));

    // A valid image with trailing garbage.
    let mut padded = image.clone();
    padded.push(0);
    assert!(matches!(decode(&padded), Err(VecError::CorruptData)));

    // An intact image still decodes.
    assert!(decode(&image).is_ok());
}
