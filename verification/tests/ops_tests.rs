use trinity_vsa::bind;
use trinity_vsa::bundle;
use trinity_vsa::hamming_distance;
use trinity_vsa::permute;
use trinity_vsa::unbind;
use trinity_vsa::TritVector;

/// Cosine similarity of two equal-length trit vectors.
fn similarity(a: &TritVector, b: &TritVector) -> f64 {
    assert_eq!(a.len(), b.len());
    let dot: i64 = a
        .as_slice()
        .iter()
        .zip(b.as_slice().iter())
        .map(|(&x, &y)| (x as i64) * (y as i64))
        .sum();
    let norm_a = (a.nnz() as f64).sqrt();
    let norm_b = (b.nnz() as f64).sqrt();
    if norm_a == 0.0 || norm_b == 0.0 {
        return 0.0;
    }
    (dot as f64) / (norm_a * norm_b)
}

#[test]
fn test_unbind_recovers_where_key_is_nonzero() {
    let a = TritVector::from_slice(&[1, -1, 1, 0, -1, 1]);
    let b = TritVector::from_slice(&[-1, 0, 1, 1, -1, 0]);
    let bound = bind(&a, &b);
    let recovered = unbind(&bound, &a);
    for i in 0..a.len() {
        if a.as_slice()[i] != 0 {
            assert_eq!(recovered.as_slice()[i], b.as_slice()[i]);
        } else {
            assert_eq!(recovered.as_slice()[i], 0);
        }
    }
}

#[test]
fn test_unbind_recovery_similarity() {
    let a = TritVector::random(1000);
    let b = TritVector::random(1000);
    let bound = bind(&a, &b);
    let recovered = unbind(&bound, &a);
    // recovery is exact on the key's support, about two thirds of the
    // positions, so the similarity is high but not 1
    let sim = similarity(&recovered, &b);
    assert!(sim > 0.6, "Unbind should recover original: {}", sim);
}

#[test]
fn test_bundle_similarity() {
    let vectors: Vec<TritVector> = (0..5).map(|_| TritVector::random(1000)).collect();
    let refs: Vec<&TritVector> = vectors.iter().collect();

    let bundled = bundle(&refs);

    // Bundled should be similar to all inputs
    for v in &vectors {
        let sim = similarity(&bundled, v);
        assert!(sim > 0.3, "Bundle should be similar to inputs: {}", sim);
    }
}

#[test]
fn test_permute_shift_two() {
    // shifting toward higher indices by two carries the last two
    // elements to the front
    let v = TritVector::from_slice(&[1, -1, 0, 1, -1]);
    let shifted = permute(&v, 2);
    assert_eq!(shifted.as_slice(), &[1, -1, 1, -1, 0]);
}

#[test]
fn test_self_similarity() {
    let v = TritVector::random(100);
    let sim = similarity(&v, &v);
    assert!((sim - 1.0).abs() < 1e-10 || v.nnz() == 0, "Self-similarity should be 1.0");
}

#[test]
fn test_bind_self_and_commutativity() {
    let a = TritVector::from_slice(&[1, -1, 0, 1]);
    let b = TritVector::from_slice(&[-1, -1, 1, 0]);
    assert_eq!(bind(&a, &b).as_slice(), bind(&b, &a).as_slice());
    // self-binding: +1 wherever nonzero, zero elsewhere
    assert_eq!(bind(&a, &a).as_slice(), &[1, 1, 0, 1]);
}

#[test]
fn test_bundle_single_vector_is_identity() {
    let v = TritVector::from_slice(&[1, -1, 0, 1, -1]);
    let bundled = bundle(&[&v]);
    assert_eq!(bundled.as_slice(), v.as_slice());
}

#[test]
fn test_bundle_majority_and_ties() {
    let p = TritVector::from_slice(&[1]);
    let n = TritVector::from_slice(&[-1]);
    assert_eq!(bundle(&[&p, &p, &p]).as_slice(), &[1]);
    assert_eq!(bundle(&[&p, &p, &n]).as_slice(), &[1]);
    assert_eq!(bundle(&[&p, &n]).as_slice(), &[0]);
}

#[test]
fn test_bundle_empty_list() {
    let bundled = bundle(&[]);
    assert_eq!(bundled.len(), 0);
}

#[test]
fn test_permute_wraps_and_composes() {
    let v = TritVector::from_slice(&[1, -1, 0, 1, -1]);
    // a shift is a no-op modulo the length
    assert_eq!(permute(&v, 0).as_slice(), v.as_slice());
    assert_eq!(permute(&v, 5).as_slice(), v.as_slice());
    assert_eq!(permute(&v, 7).as_slice(), permute(&v, 2).as_slice());
    // negative shifts wrap the other way
    assert_eq!(permute(&v, -3).as_slice(), permute(&v, 2).as_slice());
    // two shifts compose into their sum
    let once = permute(&permute(&v, 2), 4);
    assert_eq!(once.as_slice(), permute(&v, 6).as_slice());
}

#[test]
fn test_permute_empty() {
    let v = TritVector::zeros(0);
    assert_eq!(permute(&v, 3).len(), 0);
}

#[test]
fn test_hamming_distance() {
    let a = TritVector::from_slice(&[1, -1, 0, 1]);
    let b = TritVector::from_slice(&[1, 0, 0, -1]);
    // exact value inequality: Pos against Zero counts as different
    assert_eq!(hamming_distance(&a, &b), 2);
    assert_eq!(hamming_distance(&a, &a), 0);
    let c = TritVector::from_slice(&[1, -1, 0, 1]);
    assert_eq!(hamming_distance(&a, &c), 0);
}

#[test]
fn test_similarity_of_opposites_and_zero() {
    let v = TritVector::from_slice(&[1, -1, 0, 1, -1]);
    let sim = similarity(&v, &v.negated());
    assert!((sim + 1.0).abs() < 1e-10);
    let z = TritVector::zeros(5);
    assert_eq!(similarity(&v, &z), 0.0);
}
