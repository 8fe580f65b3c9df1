use trinity_vsa::Trit;

#[test]
fn test_mul() {
    assert_eq!(Trit::Pos.mul(Trit::Pos), Trit::Pos);
    assert_eq!(Trit::Pos.mul(Trit::Neg), Trit::Neg);
    assert_eq!(Trit::Neg.mul(Trit::Neg), Trit::Pos);
    assert_eq!(Trit::Zero.mul(Trit::Pos), Trit::Zero);
}

#[test]
fn test_neg() {
    assert_eq!(Trit::Pos.neg(), Trit::Neg);
    assert_eq!(Trit::Neg.neg(), Trit::Pos);
    assert_eq!(Trit::Zero.neg(), Trit::Zero);
}

#[test]
fn test_add_saturates() {
    assert_eq!(Trit::Pos.add(Trit::Pos), Trit::Pos);
    assert_eq!(Trit::Neg.add(Trit::Neg), Trit::Neg);
    assert_eq!(Trit::Pos.add(Trit::Neg), Trit::Zero);
    assert_eq!(Trit::Zero.add(Trit::Neg), Trit::Neg);
    assert_eq!(Trit::Zero.add(Trit::Zero), Trit::Zero);
}

#[test]
fn test_from_i8_uses_sign() {
    assert_eq!(Trit::from_i8(5), Trit::Pos);
    assert_eq!(Trit::from_i8(-7), Trit::Neg);
    assert_eq!(Trit::from_i8(0), Trit::Zero);
    assert_eq!(Trit::from_i8(1), Trit::Pos);
    assert_eq!(Trit::from_i8(-1), Trit::Neg);
}

#[test]
fn test_to_i8() {
    assert_eq!(Trit::Pos.to_i8(), 1);
    assert_eq!(Trit::Neg.to_i8(), -1);
    assert_eq!(Trit::Zero.to_i8(), 0);
}
