use rust_stark::algebra::{Field, FieldElement};
use rust_stark::univariate::Polynomial;

fn f19() -> Field {
    Field::new(19)
}

fn poly(values: &[u128]) -> Polynomial {
    Polynomial::new(values.iter().map(|v| FieldElement::new(*v, f19())).collect())
}

#[test]
fn degree_and_leading_coefficient() {
    let p = poly(&[1, 0, 5, 2]);
    assert_eq!(p.degree(), 3);
    assert!(p.leading_coefficient().unwrap() == FieldElement::new(2, f19()));
}

#[test]
fn trailing_zeros_do_not_count() {
    let p = poly(&[1, 0, 5, 2, 0, 0]);
    assert_eq!(p.degree(), 3);
    assert!(p.leading_coefficient().unwrap() == FieldElement::new(2, f19()));
    assert!(!p.is_zero());
}

#[test]
fn zero_polynomial_degree() {
    assert_eq!(poly(&[]).degree(), -1);
    assert_eq!(poly(&[0, 0, 0]).degree(), -1);
    assert!(poly(&[0]).is_zero());
    assert!(poly(&[0, 0]).leading_coefficient().is_none());
    assert!(poly(&[]).leading_coefficient().is_none());
}

#[test]
fn zero_representations_are_equal() {
    assert_eq!(poly(&[]), poly(&[0, 0, 0]));
    assert_eq!(poly(&[0]), poly(&[0, 0]));
    assert_ne!(poly(&[]), poly(&[1]));
}

#[test]
fn equality_ignores_trailing_zeros() {
    assert_eq!(poly(&[1, 2]), poly(&[1, 2, 0, 0]));
    assert_ne!(poly(&[1, 2]), poly(&[1, 3]));
    assert_ne!(poly(&[1, 2]), poly(&[1, 2, 1]));
    let p = poly(&[4, 0, 7]);
    assert_eq!(p, p.clone());
}

#[test]
fn addition_is_coefficientwise_field_sum() {
    let a = poly(&[1, 0, 5, 2]);
    let b = poly(&[2, 2, 1]);
    let sum = a.add(b);
    assert_eq!(sum, poly(&[3, 2, 6, 2]));
    assert_eq!(sum.degree(), 3);
    assert!(sum.leading_coefficient().unwrap() == FieldElement::new(2, f19()));
    let c = poly(&[18, 18]);
    assert_eq!(poly(&[1, 1, 1]).add(c), poly(&[0, 0, 1]));
    assert_eq!(poly(&[]).add(poly(&[3])), poly(&[3]));
    assert_eq!(poly(&[3]).add(poly(&[0, 0])), poly(&[3]));
}

#[test]
fn subtraction_and_negation() {
    let a = poly(&[1, 0, 5, 2]);
    assert_eq!(a.clone().sub(a.clone()), poly(&[]));
    assert_eq!(poly(&[1, 2]).sub(poly(&[3])), poly(&[17, 2]));
    assert_eq!(poly(&[1, 0, 18]).neg(), poly(&[18, 0, 1]));
}

#[test]
fn multiplication_is_convolution() {
    assert_eq!(poly(&[1, 1]).mul(poly(&[1, 1])), poly(&[1, 2, 1]));
    assert_eq!(poly(&[1, 0, 5, 2]).mul(poly(&[2, 2, 1])), poly(&[2, 2, 11, 14, 9, 2]));
    assert_eq!(poly(&[]).mul(poly(&[1, 2])), poly(&[]));
    assert_eq!(poly(&[1, 2]).mul(poly(&[])), poly(&[]));
    assert_eq!(poly(&[0, 0]).mul(poly(&[1, 2])), poly(&[]));
}

#[test]
fn test_distributivity() {
    let a = poly(&[1, 0, 5, 2]);
    let b = poly(&[2, 2, 1]);
    let c = poly(&[0, 5, 2, 5, 5, 1]);
    let lhs = a.clone().mul(b.clone().add(c.clone()));
    let rhs = a.clone().mul(b).add(a.mul(c));
    assert_eq!(lhs, rhs, "Error! distributivity fails for polynomials!");
}
