use rust_stark::algebra::{xgcd, Field, FieldElement, FieldError, STARK_GENERATOR, STARK_MODULUS};

fn f19() -> Field {
    Field::new(19)
}

fn el(v: u128) -> FieldElement {
    FieldElement::new(v, f19())
}

#[test]
fn xgcd_of_98_and_56() {
    let (g, a, b) = xgcd(98, 56);
    assert_eq!(g, 14);
    assert_eq!(a * 98 + b * 56, 14);
    assert_eq!((a, b), (-1, 2));
}

#[test]
fn xgcd_does_not_assume_order() {
    let (g, a, b) = xgcd(56, 98);
    assert_eq!(g, 14);
    assert_eq!(a * 56 + b * 98, 14);
}

#[test]
fn xgcd_with_negative_inputs() {
    let (g, a, b) = xgcd(-98, 56);
    assert_eq!(g.abs(), 14);
    assert_eq!(a * -98 + b * 56, g);
    assert_eq!(98 % g, 0);
    assert_eq!(56 % g, 0);
}

#[test]
fn xgcd_with_zero_divisor_and_zero_dividend() {
    assert_eq!(xgcd(7, 0), (7, 1, 0));
    let (g, a, b) = xgcd(0, 5);
    assert_eq!(g, 5);
    assert_eq!(a * 0 + b * 5, 5);
}

#[test]
fn xgcd_coprime_gives_unit() {
    let (g, a, b) = xgcd(4, 19);
    assert_eq!(g, 1);
    assert_eq!(a * 4 + b * 19, 1);
}

#[test]
fn add_multiply_inverse_mod_19() {
    let f = f19();
    let four = el(4);
    let five = el(5);
    assert!(f.add(four, five) == el(9));
    assert!(f.multiply(four, five) == el(1));
    assert!(f.inverse(four).unwrap() == five);
    assert!(four.inverse().unwrap() == five);
}

#[test]
fn subtract_and_negate_stay_in_range() {
    let f = f19();
    assert!(f.subtract(el(3), el(5)) == el(17));
    assert!(f.subtract(el(5), el(3)) == el(2));
    assert!(f.negate(el(4)) == el(15));
    assert!(f.negate(el(0)) == el(0));
    assert!(el(3).sub(el(5)) == el(17));
    assert!(el(4).neg() == el(15));
}

#[test]
fn new_reduces_into_range() {
    assert!(el(37) == el(18));
    assert!(el(u128::MAX) == el(u128::MAX % 19));
    assert!(el(38) == el(0));
    assert!(el(40) == el(2));
    assert!(el(38).is_zero());
}

#[test]
fn identities() {
    let f = f19();
    assert!(f.zero().is_zero());
    assert!(f.one() == el(1));
    assert!(f.add(el(7), f.zero()) == el(7));
    assert!(f.multiply(el(7), f.one()) == el(7));
}

#[test]
fn divide_and_divide_by_zero() {
    let f = f19();
    assert!(f.divide(el(1), el(4)).unwrap() == el(5));
    assert!(f.divide(el(6), el(3)).unwrap() == el(2));
    assert_eq!(f.divide(el(6), el(0)).err(), Some(FieldError::InvalidOperand));
    assert!(el(6).div(el(3)).unwrap() == el(2));
}

#[test]
fn inverse_of_zero_is_refused() {
    assert_eq!(f19().inverse(el(0)).err(), Some(FieldError::InvalidOperand));
    assert_eq!(el(0).inverse().err(), Some(FieldError::InvalidOperand));
}

#[test]
fn every_nonzero_element_has_an_inverse() {
    let f = f19();
    for v in 1..19 {
        let a = el(v);
        assert!(f.multiply(a, a.inverse().unwrap()) == f.one());
    }
}

#[test]
fn add_sub_neg_laws_on_values() {
    let f = f19();
    for x in 0..19 {
        for y in 0..19 {
            let (a, b) = (el(x), el(y));
            assert!(f.subtract(f.add(a, b), b) == a);
            if y != 0 {
                assert!(f.divide(f.multiply(a, b), b).unwrap() == a);
            }
        }
        assert!(f.negate(f.negate(el(x))) == el(x));
    }
}

#[test]
fn exponentiation() {
    let two = el(2);
    assert!(two.pow(0) == el(1));
    assert!(two.pow(1) == two);
    assert!(two.pow(10) == el(17));
    assert!(el(0).pow(0) == el(1));
    assert!(el(0).pow(5) == el(0));
    assert!(two.pow(18) == el(1));
    let (m, n) = (5, 9);
    assert!(two.pow(m + n) == two.pow(m).mul(two.pow(n)));
}

#[test]
fn sample_accumulates_big_endian() {
    let f = f19();
    assert!(f.sample(vec![]) == el(0));
    assert!(f.sample(vec![1, 2]) == el(258 % 19));
    let long: Vec<u8> = (1..=17).collect();
    let tail: Vec<u8> = (2..=17).collect();
    assert!(f.sample(long) == f.sample(tail));
    let word = u128::from_be_bytes([0xff; 16]);
    assert!(f.sample(vec![0xff; 16]) == el(word % 19));
}

#[test]
fn generator_and_roots_are_refused_on_other_fields() {
    let f = f19();
    assert_eq!(f.generator().err(), Some(FieldError::UnsupportedField));
    assert_eq!(f.primitive_nth_root(4).err(), Some(FieldError::UnsupportedField));
    assert_eq!(f.primitive_nth_root(3).err(), Some(FieldError::UnsupportedField));
    assert_eq!(f.primitive_nth_root(1i128 << 119).err(), Some(FieldError::UnsupportedField));
}

fn stark() -> Field {
    Field::new(STARK_MODULUS)
}

fn big(v: u128) -> FieldElement {
    FieldElement::new(v, stark())
}

#[test]
fn stark_modulus_value() {
    assert_eq!(STARK_MODULUS, 1 + 407 * (1u128 << 119));
}

#[test]
fn generator_of_the_stark_field() {
    assert!(stark().generator().unwrap() == big(STARK_GENERATOR));
}

#[test]
fn primitive_roots_of_the_stark_field() {
    let f = stark();
    let g = big(STARK_GENERATOR);
    assert!(f.primitive_nth_root(1i128 << 119).unwrap() == g);
    assert!(f.primitive_nth_root(1i128 << 118).unwrap() == g.mul(g));
    let r8 = f.primitive_nth_root(8).unwrap();
    assert!(r8 == big(131076302407280330469229082343774091404));
    assert!(r8.pow(8) == f.one());
    assert!(r8.pow(4) != f.one());
    assert!(f.primitive_nth_root(1).unwrap() == f.one());
    assert!(f.primitive_nth_root(2).unwrap() == f.negate(f.one()));
}

#[test]
fn root_orders_out_of_range_on_the_stark_field() {
    let f = stark();
    assert_eq!(f.primitive_nth_root(3).err(), Some(FieldError::RootOrderOutOfRange));
    assert_eq!(f.primitive_nth_root(0).err(), Some(FieldError::RootOrderOutOfRange));
    assert_eq!(f.primitive_nth_root(-8).err(), Some(FieldError::RootOrderOutOfRange));
    assert_eq!(f.primitive_nth_root(12).err(), Some(FieldError::RootOrderOutOfRange));
    assert_eq!(
        f.primitive_nth_root(1i128 << 120).err(),
        Some(FieldError::RootOrderOutOfRange)
    );
}

#[test]
fn arithmetic_near_the_top_of_128_bits() {
    let f = stark();
    let top = big(STARK_MODULUS - 1);
    assert!(f.add(top, top) == big(STARK_MODULUS - 2));
    assert!(f.multiply(top, top) == f.one());
    assert!(f.subtract(big(1), top) == big(2));
    assert!(f.negate(top) == f.one());
    let g = big(STARK_GENERATOR);
    assert!(f.multiply(g, g) == big(149224634558074809886965749048363504499));
    assert!(f.multiply(g, g.inverse().unwrap()) == f.one());
    assert!(f.divide(f.multiply(g, top), top).unwrap() == g);
}

#[test]
fn field_element_accessor() {
    assert_eq!(el(3).field(), f19());
}
