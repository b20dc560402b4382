use reed_solomon::FieldElement;
use reed_solomon::GF2k;

fn engine() -> GF2k {
    GF2k::new().expect("the built tables satisfy every well-formedness check")
}

#[test]
fn test_add() {
    assert_eq!(GF2k::add(0, 0), 0);
    assert_eq!(GF2k::add(0, 1), 1);
    assert_eq!(GF2k::add(1, 0), 1);
    assert_eq!(GF2k::add(1, 1), 0);
}

#[test]
fn test_sub() {
    assert_eq!(GF2k::sub(0, 0), 0);
    assert_eq!(GF2k::sub(0, 1), 1);
    assert_eq!(GF2k::sub(1, 0), 1);
    assert_eq!(GF2k::sub(1, 1), 0);
}

#[test]
fn test_mul() {
    let f = engine();
    assert_eq!(f.mul(0, 0), 0);
    assert_eq!(f.mul(0, 1), 0);
    assert_eq!(f.mul(1, 0), 0);
    assert_eq!(f.mul(1, 1), 1);
}

#[test]
fn test_exp() {
    let f = engine();
    assert_eq!(f.exp(0, 0), 1);
    assert_eq!(f.exp(0, 1), 0);
    assert_eq!(f.exp(1, 0), 1);
    assert_eq!(f.exp(1, 1), 1);
}

#[test]
fn test_inverse() {
    let f = engine();
    assert_eq!(f.inverse(0), None);
    assert_eq!(f.inverse(1), Some(1));
}

#[test]
fn test_div() {
    let f = engine();
    assert_eq!(f.div(0, 0), None);
    assert_eq!(f.div(0, 1), Some(0));
    assert_eq!(f.div(1, 0), None);
    assert_eq!(f.div(1, 1), Some(1));
}

#[test]
fn test_neg() {
    assert_eq!(GF2k::neg(0), 0);
    assert_eq!(GF2k::neg(1), 1);
}

#[test]
fn field_axioms_hold_everywhere() {
    let f = engine();
    // Spot values for the two-operand laws, and full sweeps where cheap.
    for a in 0..=255u8 {
        assert_eq!(f.mul(a, 1), a);
        assert_eq!(f.mul(1, a), a);
        assert_eq!(f.mul(a, 0), 0);
        assert_eq!(GF2k::add(a, 0), a);
        assert_eq!(GF2k::add(a, a), 0);
        assert_eq!(f.div(a, 0), None);
        assert_eq!(f.exp(a, 0), 1);
        if a != 0 {
            let inv = f.inverse(a).expect("nonzero values have inverses");
            assert_eq!(f.mul(a, inv), 1);
            assert_eq!(f.exp(0, a as usize), 0);
        }
        for b in [0u8, 1, 2, 29, 53, 128, 255] {
            assert_eq!(GF2k::add(a, b), GF2k::add(b, a));
            assert_eq!(f.mul(a, b), f.mul(b, a));
        }
    }
}

#[test]
fn table_multiplication_matches_known_values() {
    let f = engine();
    // Carry-less products below the reduction threshold...
    assert_eq!(f.mul(2, 2), 4);
    assert_eq!(f.mul(6, 5), 30);
    assert_eq!(f.mul(8, 5), 40);
    // ...and one that wraps through the primitive polynomial 0x11d.
    assert_eq!(f.mul(0x80, 2), 0x1d);
    assert_eq!(f.exp(2, 8), f.mul(0x80, 2));
}

#[test]
fn field_element_operations() {
    let f = engine();
    let a = FieldElement::new(6);
    let b = FieldElement::new(5);
    assert_eq!(a.add(b), FieldElement::new(3));
    assert_eq!(a.sub(b), FieldElement::new(3));
    assert_eq!(a.neg(), a);
    assert_eq!(a.mul(b, &f), FieldElement::new(30));
    assert_eq!(a.mul(b, &f).div(b, &f), a);
    assert_eq!(FieldElement::new(2).pow(3, &f), FieldElement::new(8));
    assert_eq!(FieldElement::zero(), FieldElement::new(0));
    assert_eq!(FieldElement::one(), FieldElement::new(1));
}
