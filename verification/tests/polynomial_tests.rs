use reed_solomon::FieldElement;
use reed_solomon::GF2k;
use reed_solomon::Polynomial;

type Elem = FieldElement;

fn engine() -> GF2k {
    GF2k::new().expect("the built tables satisfy every well-formedness check")
}

#[test]
fn new_polynomial() {
    let coeffs = vec![Elem::one(); 3];
    let poly = Polynomial::new(&coeffs);

    assert_eq!(poly.len(), coeffs.len());
}

#[test]
fn evaluate() {
    let f = engine();
    let poly = Polynomial::new(&vec![Elem::one(); 3]);

    assert_eq!(poly.evaluate(&Elem::new(10), &f), Elem::new(79));
}

#[test]
fn add() {
    let poly1 = Polynomial::new(&vec![Elem::one(), Elem::new(10)]);
    let poly2 = Polynomial::new(&vec![Elem::one(), Elem::new(10)]);

    let poly3 = poly1.add(&poly2);

    assert_eq!(poly3.coeffs, vec![Elem::new(0), Elem::new(0)]);
}

#[test]
fn sub() {
    let poly1 = Polynomial::new(&vec![Elem::one(), Elem::new(10)]);
    let poly2 = Polynomial::new(&vec![Elem::one(), Elem::new(10)]);

    let poly3 = poly1.sub(&poly2);

    assert_eq!(poly3.coeffs, vec![Elem::new(0), Elem::new(0)]);
}

#[test]
fn mul_convolution() {
    let f = engine();
    let poly1 = Polynomial::new(&vec![Elem::one(), Elem::new(1)]);
    let poly2 = Polynomial::new(&vec![Elem::one(), Elem::new(2)]);

    let poly3 = poly1.mul(&poly2, &f);

    // (x + 1)(x + 2) = x^2 + 3x + 2 over GF(2^8); the product buffer keeps
    // one structural zero in front, one coefficient per pair of operand
    // lengths.
    assert_eq!(
        poly3.coeffs,
        vec![Elem::zero(), Elem::one(), Elem::new(3), Elem::new(2)]
    );
}

#[test]
fn div() {
    let f = engine();
    let poly1 = Polynomial::new(&vec![Elem::one(), Elem::new(10)]);
    let poly2 = Polynomial::new(&vec![Elem::one(), Elem::new(10)]);

    let (poly3, poly4) = poly1.div(&poly2, &f);

    assert_eq!(poly3.coeffs, vec![Elem::one()]);
    assert_eq!(poly4.coeffs, vec![Elem::zero()]);
}

#[test]
fn rem() {
    let f = engine();
    let poly1 = Polynomial::new(&vec![Elem::one(), Elem::new(10)]);
    let poly2 = Polynomial::new(&vec![Elem::one(), Elem::new(10)]);

    let poly3 = poly1.rem(&poly2, &f);

    assert_eq!(poly3.coeffs, vec![Elem::zero()]);
}

#[test]
fn degree() {
    let poly1 = Polynomial::new(&vec![Elem::one(), Elem::new(10)]);

    assert_eq!(poly1.degree(), 1);
}

#[test]
fn len() {
    let poly1 = Polynomial::new(&vec![Elem::one(), Elem::new(10)]);

    assert_eq!(poly1.len(), 2);
}

#[test]
fn new_strips_leading_zeros() {
    let poly = Polynomial::new(&vec![Elem::zero(), Elem::zero(), Elem::new(7), Elem::new(9)]);
    assert_eq!(poly.coeffs, vec![Elem::new(7), Elem::new(9)]);
}

#[test]
fn add_self_is_zero() {
    let poly = Polynomial::new(&vec![Elem::new(37), Elem::new(0), Elem::new(201)]);
    let sum = poly.add(&poly);
    assert!(sum.is_zero());
    assert_eq!(sum.len(), 3);
}

#[test]
fn div_self_monic() {
    let f = engine();
    let poly = Polynomial::new(&vec![Elem::one(), Elem::new(7), Elem::new(23)]);
    let (q, r) = poly.div(&poly, &f);
    assert_eq!(q.coeffs, vec![Elem::one()]);
    assert_eq!(r.coeffs, vec![Elem::zero(), Elem::zero()]);
}

#[test]
fn add_pads_the_shorter_operand() {
    let poly1 = Polynomial::new(&vec![Elem::new(5), Elem::new(1), Elem::new(2)]);
    let poly2 = Polynomial::new(&vec![Elem::new(3)]);
    let sum = poly1.add(&poly2);
    assert_eq!(sum.coeffs, vec![Elem::new(5), Elem::new(1), Elem::new(1)]);
}

#[test]
fn evaluate_is_horner() {
    let f = engine();
    // 6 x^2 + 5 x + 8 at x = 2: 6*4 ^ 5*2 ^ 8 = 24 ^ 10 ^ 8 = 26.
    let poly = Polynomial::new(&vec![Elem::new(6), Elem::new(5), Elem::new(8)]);
    assert_eq!(poly.evaluate(&Elem::new(2), &f), Elem::new(26));
}
