//! An embeddable vector similarity store.
//!
//! The store maps string identifiers to fixed-dimension numeric vectors,
//! normalizes every vector on write, and answers k-nearest-neighbour queries
//! by cosine similarity, computed as a dot product over unit-normalized
//! vectors.
//!
//! Coordinates are fixed-point numbers: an `i32` component counts micro-units,
//! so the value `1.0` is stored as `1_000_000` (see [`vector::SCALE`]).
//! Similarity scores are in squared micro-units: a score of `SCALE * SCALE`
//! means a cosine of exactly one.

pub mod codec;
pub mod db;
pub mod errors;
pub mod laws;
pub mod topk;
pub mod vector;
