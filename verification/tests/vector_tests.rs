use trinity_vsa::Trit;
use trinity_vsa::TritVector;

#[test]
fn test_random() {
    let v = TritVector::random(1000);
    assert_eq!(v.len(), 1000);
    // All values should be in {-1, 0, 1}
    assert!(v.as_slice().iter().all(|&x| x >= -1 && x <= 1));
}

#[test]
fn test_negate() {
    let mut v = TritVector::from_slice(&[1, 0, -1, 1, -1]);
    v.negate();
    assert_eq!(v.as_slice(), &[-1, 0, 1, -1, 1]);
}

#[test]
fn test_negated_copy() {
    let v = TritVector::from_slice(&[1, 0, -1]);
    let n = v.negated();
    assert_eq!(n.as_slice(), &[-1, 0, 1]);
    assert_eq!(v.as_slice(), &[1, 0, -1]);
}

#[test]
fn test_from_slice_normalizes_by_sign() {
    let v = TritVector::from_slice(&[5, -3, 0, 127, -128]);
    assert_eq!(v.as_slice(), &[1, -1, 0, 1, -1]);
}

#[test]
fn test_zeros_and_nnz() {
    let v = TritVector::zeros(10);
    assert_eq!(v.len(), 10);
    assert!(!v.is_empty());
    assert_eq!(v.nnz(), 0);
    let w = TritVector::from_slice(&[1, 0, -1, 0, 1]);
    assert_eq!(w.nnz(), 3);
    assert!(TritVector::zeros(0).is_empty());
}

#[test]
fn test_get_set_dense() {
    let mut v = TritVector::zeros(4);
    v.set(2, Trit::Neg);
    v.set(0, Trit::Pos);
    assert_eq!(v.get(0), Trit::Pos);
    assert_eq!(v.get(1), Trit::Zero);
    assert_eq!(v.get(2), Trit::Neg);
    v.set(2, Trit::Zero);
    assert_eq!(v.get(2), Trit::Zero);
    assert_eq!(v.nnz(), 1);
}

#[test]
fn test_as_mut_slice() {
    let mut v = TritVector::from_slice(&[1, 0, -1]);
    v.as_mut_slice()[1] = -1;
    assert_eq!(v.as_slice(), &[1, -1, -1]);
}
