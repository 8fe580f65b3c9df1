use rand::Rng;
use trinity_vsa::bind;
use trinity_vsa::SparseVec;
use trinity_vsa::Trit;
use trinity_vsa::TritVector;

/// Random vector where each element is nonzero with the given
/// probability, else zero; nonzero values are +-1 with equal chance.
fn random_sparse(dim: usize, sparsity: f64) -> TritVector {
    let mut rng = rand::thread_rng();
    let data: Vec<i8> = (0..dim)
        .map(|_| {
            if rng.gen::<f64>() > sparsity {
                0
            } else if rng.gen::<bool>() {
                1
            } else {
                -1
            }
        })
        .collect();
    TritVector::from_slice(&data)
}

#[test]
fn sparse_test_roundtrip() {
    let v = random_sparse(1000, 0.1); // 10% non-zero
    let sparse = SparseVec::from_trit_vector(&v);
    let dense = sparse.to_trit_vector();
    assert_eq!(v, dense);
}

#[test]
fn test_sparsity() {
    let v = random_sparse(10000, 0.05); // 5% non-zero
    let sparse = SparseVec::from_trit_vector(&v);
    let ratio = 1.0 - (sparse.nnz() as f64 / sparse.dim() as f64);
    assert!(ratio > 0.9);
}

#[test]
fn test_dot() {
    let a = random_sparse(1000, 0.1);
    let b = random_sparse(1000, 0.1);

    let sparse_a = SparseVec::from_trit_vector(&a);
    let sparse_b = SparseVec::from_trit_vector(&b);

    let sparse_dot = sparse_a.dot(&sparse_b);

    // Compare with dense dot
    let dense_dot: i64 = a
        .as_slice()
        .iter()
        .zip(b.as_slice().iter())
        .map(|(&x, &y)| (x as i64) * (y as i64))
        .sum();

    assert_eq!(sparse_dot, dense_dot);
}

#[test]
fn test_bind_matches_dense() {
    let a = random_sparse(500, 0.2);
    let b = random_sparse(500, 0.2);
    let sa = SparseVec::from_trit_vector(&a);
    let sb = SparseVec::from_trit_vector(&b);

    let sparse_bound = sa.bind(&sb).to_trit_vector();
    let dense_bound = bind(&a, &b);
    assert_eq!(sparse_bound, dense_bound);
}

#[test]
fn test_get_set_remove() {
    let mut s = SparseVec::new(100);
    assert_eq!(s.dim(), 100);
    assert_eq!(s.nnz(), 0);
    assert_eq!(s.get(17), Trit::Zero);
    s.set(17, Trit::Pos);
    s.set(3, Trit::Neg);
    assert_eq!(s.get(17), Trit::Pos);
    assert_eq!(s.get(3), Trit::Neg);
    assert_eq!(s.nnz(), 2);
    // overwriting keeps one entry, storing zero removes it
    s.set(17, Trit::Neg);
    assert_eq!(s.get(17), Trit::Neg);
    assert_eq!(s.nnz(), 2);
    s.set(17, Trit::Zero);
    assert_eq!(s.get(17), Trit::Zero);
    assert_eq!(s.nnz(), 1);
}

#[test]
fn test_roundtrip_dense_values() {
    let v = TritVector::from_slice(&[0, 1, 0, -1, 0, 0, 1]);
    let s = SparseVec::from_trit_vector(&v);
    assert_eq!(s.nnz(), 3);
    assert_eq!(s.to_trit_vector(), v);
}

#[test]
fn test_memory_bytes_formula() {
    let v = TritVector::from_slice(&[1, 0, -1, 0, 1]);
    let s = SparseVec::from_trit_vector(&v);
    assert_eq!(s.memory_bytes(), 24 + 16 * 3);
}
