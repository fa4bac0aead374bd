use vdb::cosine::cosine_similarity;
use vdb::cosine::dot_product;
use vdb::cosine::isqrt;
use vdb::cosine::norm;
use vdb::cosine::SCORE_SCALE;

#[test]
fn norm_is_the_floored_root_of_the_self_dot() {
    assert_eq!(norm(&vec![3, 4]), 5);
    assert_eq!(norm(&vec![1, 1]), 1);
    assert_eq!(norm(&vec![0, 0]), 0);
    assert_eq!(norm(&vec![]), 0);
}

#[test]
fn dot_product_exact() {
    assert_eq!(dot_product(&vec![1, 2, 3], &vec![4, 5, 6]), 32);
    assert_eq!(dot_product(&vec![], &vec![]), 0);
    assert_eq!(dot_product(&vec![-1000, 1000], &vec![1000, 1000]), 0);
}

#[test]
fn isqrt_exact() {
    assert_eq!(isqrt(0), 0);
    assert_eq!(isqrt(1), 1);
    assert_eq!(isqrt(24), 4);
    assert_eq!(isqrt(25), 5);
    assert_eq!(isqrt(26), 5);
    assert_eq!(isqrt(1_000_000_000_000), 1_000_000);
}

#[test]
fn cosine_of_vector_with_itself_is_one() {
    // Exact squares, so the floored norm loses nothing: the result is
    // exactly the scale that represents 1.0.
    assert_eq!(cosine_similarity(&vec![3, 4], &vec![3, 4]), SCORE_SCALE);
    assert_eq!(cosine_similarity(&vec![1000, 0], &vec![1000, 0]), SCORE_SCALE);
}

#[test]
fn cosine_of_vector_with_itself_is_near_one_for_inexact_norms() {
    // dot = 2, norm floors to 1: the overshoot stays within 2/norm of one.
    let v = vec![1, 1];
    let c = cosine_similarity(&v, &v);
    assert!(c >= SCORE_SCALE);
    assert!(c <= SCORE_SCALE + 2 * SCORE_SCALE / 1);
    // A longer vector: dot = 12, norm floors to 3.
    let w = vec![2, 2, 2];
    let cw = cosine_similarity(&w, &w);
    assert!(cw >= SCORE_SCALE);
    assert!(cw <= SCORE_SCALE + 2 * SCORE_SCALE / 3);
}

#[test]
fn cosine_with_zero_vector_is_zero() {
    assert_eq!(cosine_similarity(&vec![5, 7], &vec![0, 0]), 0);
    assert_eq!(cosine_similarity(&vec![0, 0], &vec![5, 7]), 0);
    assert_eq!(cosine_similarity(&vec![0, 0], &vec![0, 0]), 0);
    assert_eq!(cosine_similarity(&vec![], &vec![]), 0);
}

#[test]
fn cosine_of_orthogonal_and_opposite_vectors() {
    assert_eq!(cosine_similarity(&vec![1000, 0], &vec![0, 1000]), 0);
    assert_eq!(cosine_similarity(&vec![1000, 0], &vec![-1000, 0]), -SCORE_SCALE);
}
