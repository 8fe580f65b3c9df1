use trinity_vsa::bind;
use trinity_vsa::PackedTritVec;
use trinity_vsa::Trit;
use trinity_vsa::TritVector;

#[test]
fn packed_test_roundtrip() {
    let v = TritVector::random(1000);
    let packed = PackedTritVec::from_trit_vector(&v);
    let unpacked = packed.to_trit_vector();
    assert_eq!(v, unpacked);
}

#[test]
fn test_bind() {
    let a = TritVector::random(1000);
    let b = TritVector::random(1000);

    let packed_a = PackedTritVec::from_trit_vector(&a);
    let packed_b = PackedTritVec::from_trit_vector(&b);

    let packed_result = packed_a.bind(&packed_b);
    let result = packed_result.to_trit_vector();

    // Compare with dense bind
    let expected = bind(&a, &b);
    assert_eq!(result, expected);
}

#[test]
fn test_memory_savings() {
    let dim = 10000;
    let dense_bytes = dim; // 1 byte per trit
    let packed = PackedTritVec::zeros(dim);
    let packed_bytes = packed.memory_bytes();

    // Should be ~4x smaller
    assert!(packed_bytes < dense_bytes / 3);
    // two 8-byte words per 64 positions, the final word rounded up
    assert_eq!(packed_bytes, 16 * ((dim + 63) / 64));
    assert_eq!(PackedTritVec::zeros(0).memory_bytes(), 0);
}

#[test]
fn test_dot_matches_dense() {
    let a = TritVector::random(1000);
    let b = TritVector::random(1000);
    let pa = PackedTritVec::from_trit_vector(&a);
    let pb = PackedTritVec::from_trit_vector(&b);

    let dense_dot: i64 = a
        .as_slice()
        .iter()
        .zip(b.as_slice().iter())
        .map(|(&x, &y)| (x as i64) * (y as i64))
        .sum();
    assert_eq!(pa.dot(&pb), dense_dot);
}

#[test]
fn test_packed_get_set() {
    let mut p = PackedTritVec::zeros(130);
    assert_eq!(p.len(), 130);
    assert!(!p.is_empty());
    p.set(0, Trit::Pos);
    p.set(64, Trit::Neg);
    p.set(129, Trit::Pos);
    assert_eq!(p.get(0), Trit::Pos);
    assert_eq!(p.get(64), Trit::Neg);
    assert_eq!(p.get(129), Trit::Pos);
    assert_eq!(p.get(1), Trit::Zero);
    p.set(64, Trit::Pos);
    assert_eq!(p.get(64), Trit::Pos);
    p.set(64, Trit::Zero);
    assert_eq!(p.get(64), Trit::Zero);
}

#[test]
fn test_partial_final_word() {
    // a dimension that is not a multiple of the word width: the spare
    // bits of the final word must never reach the dot product
    let a = TritVector::from_slice(&[1; 65]);
    let b = TritVector::from_slice(&[1; 65]);
    let pa = PackedTritVec::from_trit_vector(&a);
    let pb = PackedTritVec::from_trit_vector(&b);
    assert_eq!(pa.dot(&pb), 65);

    let neg = a.negated();
    let pn = PackedTritVec::from_trit_vector(&neg);
    assert_eq!(pa.dot(&pn), -65);
}

#[test]
fn test_empty_bind() {
    let a = PackedTritVec::zeros(0);
    let b = PackedTritVec::zeros(0);
    let r = a.bind(&b);
    assert!(r.is_empty());
    assert_eq!(r.to_trit_vector().len(), 0);
}
