//! Similarity-kernel tests.

use memory_module::fixed::SCALE;
use memory_module::similarity::{cosine_similarity, similarity_from_distance};

#[test]
fn cosine_similarity_is_symmetric() {
    let a: Vec<i64> = vec![100_000, -200_000, 300_000, 50_000];
    let b: Vec<i64> = vec![-400_000, 500_000, 600_000, 999_999];
    assert_eq!(cosine_similarity(&a, &b), cosine_similarity(&b, &a));

    let c: Vec<i64> = vec![1, 2, 3];
    let d: Vec<i64> = vec![9, 8, 7];
    assert_eq!(cosine_similarity(&c, &d), cosine_similarity(&d, &c));
}

#[test]
fn cosine_similarity_self_is_one() {
    let v: Vec<i64> = vec![100_000, 200_000, 300_000];
    assert_eq!(cosine_similarity(&v, &v), SCALE);

    let w: Vec<i64> = vec![-7, 13];
    assert_eq!(cosine_similarity(&w, &w), SCALE);
}

#[test]
fn cosine_similarity_in_range() {
    let a: Vec<i64> = vec![1_000_000, 0, -1_000_000];
    let b: Vec<i64> = vec![-1_000_000, 0, 1_000_000];
    let s = cosine_similarity(&a, &b);
    assert!(-SCALE <= s && s <= SCALE);
    // exactly opposite vectors score -1.0
    assert_eq!(s, -SCALE);
}

#[test]
fn cosine_similarity_degenerate_inputs_score_zero() {
    let empty: Vec<i64> = vec![];
    let v: Vec<i64> = vec![100_000, 200_000];
    let longer: Vec<i64> = vec![100_000, 200_000, 300_000];
    let zeros: Vec<i64> = vec![0, 0];

    assert_eq!(cosine_similarity(&empty, &v), 0);
    assert_eq!(cosine_similarity(&v, &empty), 0);
    assert_eq!(cosine_similarity(&v, &longer), 0);
    assert_eq!(cosine_similarity(&v, &zeros), 0);
}

#[test]
fn orthogonal_vectors_score_zero() {
    let a: Vec<i64> = vec![1_000_000, 0];
    let b: Vec<i64> = vec![0, 1_000_000];
    assert_eq!(cosine_similarity(&a, &b), 0);
}

#[test]
fn distance_converts_to_similarity() {
    // 1 / (1 + 0) == 1.0
    assert_eq!(similarity_from_distance(0), SCALE);
    // 1 / (1 + 1) == 0.5
    assert_eq!(similarity_from_distance(1_000_000), 500_000);
    // 1 / (1 + 3) == 0.25
    assert_eq!(similarity_from_distance(3_000_000), 250_000);
}
