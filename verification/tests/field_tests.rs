use r1cs::small_fields::{F7, F257};
use r1cs::field::{Bls12_381, Bn128, Element, Field};
use r1cs::natural::Natural;

fn e<F: Field>(n: u128) -> Element<F> {
    Element::from_u128(n)
}

fn bn128(s: &str) -> Element<Bn128> {
    Element::from_str(s).unwrap()
}

#[test]
fn field_addition() {
    type F = F257;
    assert_eq!(e::<F>(2), Element::one().add(&Element::one()));
    assert_eq!(e::<F>(33), e::<F>(13).add(&e(20)));
}

#[test]
fn field_addition_overflow() {
    type F = F7;
    assert_eq!(e::<F>(3), e::<F>(5).add(&e(5)));
}

#[test]
fn field_additive_inverse() {
    type F = F7;
    assert_eq!(e::<F>(6), Element::<F>::one().neg());
    assert_eq!(Element::<F>::zero(), e::<F>(5).add(&e::<F>(5).neg()));
}

#[test]
fn multiplicative_inverse() {
    type F = F7;
    assert_eq!(e::<F>(0), e::<F>(0).multiplicative_inverse_or_zero());
    assert_eq!(e::<F>(1), e::<F>(1).multiplicative_inverse_or_zero());
    assert_eq!(e::<F>(4), e::<F>(2).multiplicative_inverse_or_zero());
    assert_eq!(e::<F>(5), e::<F>(3).multiplicative_inverse_or_zero());
    assert_eq!(e::<F>(2), e::<F>(4).multiplicative_inverse_or_zero());
    assert_eq!(e::<F>(3), e::<F>(5).multiplicative_inverse_or_zero());
    assert_eq!(e::<F>(6), e::<F>(6).multiplicative_inverse_or_zero());
}

#[test]
fn field_multiplication_overflow() {
    type F = F7;
    assert_eq!(e::<F>(2), e::<F>(3).mul(&e(3)));
}

#[test]
fn field_bits_0() {
    let x = Element::<F257>::zero();
    let n: usize = 20;
    for i in 0..n {
        assert_eq!(false, x.bit(i));
    }
}

#[test]
fn field_bits_19() {
    let x = e::<F257>(19);
    assert_eq!(true, x.bit(0));
    assert_eq!(true, x.bit(1));
    assert_eq!(false, x.bit(2));
    assert_eq!(false, x.bit(3));
    assert_eq!(true, x.bit(4));
    assert_eq!(false, x.bit(5));
    assert_eq!(false, x.bit(6));
    assert_eq!(false, x.bit(7));
    assert_eq!(false, x.bit(8));
    assert_eq!(false, x.bit(9));
}

#[test]
fn order_of_elements() {
    type F = F257;
    for i in 0u128..50 {
        assert!(e::<F>(i).lt(&e::<F>(i + 1)));
    }
}

#[test]
fn field_element_addition() {
    assert_eq!(e::<Bn128>(2), Element::one().add(&Element::one()));
    assert_eq!(e::<Bn128>(33), e::<Bn128>(13).add(&e(20)));
}

#[test]
fn field_element_addition_overflow() {
    assert_eq!(
        bn128("3"),
        bn128("21888242871839275222246405745257275088548364400416034343698204186575808495615")
            .add(&bn128("5"))
    );
}

#[test]
fn field_element_additive_inverse() {
    assert_eq!(
        bn128("21888242871839275222246405745257275088548364400416034343698204186575808495616"),
        Element::<Bn128>::one().neg()
    );
    assert_eq!(Element::<Bn128>::zero(), e::<Bn128>(123).add(&e::<Bn128>(123).neg()));
}

#[test]
fn field_element_multiplication_overflow() {
    assert_eq!(
        bn128("13869117166973684714533159833916213390696312133829829072325816326144232854527"),
        bn128("1234567890123456789012345678901234567890")
            .mul(&bn128("1234567890123456789012345678901234567890"))
    );
}

#[test]
fn field_element_bits_0() {
    let x = Element::<Bn128>::zero();
    let n: usize = 300;
    for i in 0..n {
        assert_eq!(false, x.bit(i));
    }
}

#[test]
fn field_element_bits_19() {
    let x = e::<Bn128>(19);
    assert_eq!(true, x.bit(0));
    assert_eq!(true, x.bit(1));
    assert_eq!(false, x.bit(2));
    assert_eq!(false, x.bit(3));
    assert_eq!(true, x.bit(4));
    assert_eq!(false, x.bit(5));
    assert_eq!(false, x.bit(6));
}

#[test]
fn from_str_rejects_out_of_range_and_non_decimal() {
    assert!(Element::<F7>::from_str("6").is_some());
    assert!(Element::<F7>::from_str("7").is_none());
    assert!(Element::<F7>::from_str("x").is_none());
    assert!(Element::<F7>::from_str("").is_none());
    assert_eq!(Element::<F257>::from_str("+2_5_6").unwrap(), e::<F257>(256));
}

#[test]
fn division_and_exponentiation() {
    type F = F7;
    assert_eq!(e::<F>(3), e::<F>(6).div(&e(2)));
    assert_eq!(e::<F>(1), e::<F>(3).exponentiation(&e(6)));
    assert_eq!(e::<F>(6), e::<F>(3).exponentiation(&e(3)));
    assert_eq!(e::<F>(5), e::<F>(3).multiplicative_inverse());
}

#[test]
fn integer_division_modulus_and_gcd() {
    type F = F257;
    assert_eq!(e::<F>(3), e::<F>(20).integer_division(&e(6)));
    assert_eq!(e::<F>(2), e::<F>(20).integer_modulus(&e(6)));
    assert_eq!(e::<F>(4), e::<F>(20).gcd(&e(12)));
    assert_eq!(e::<F>(256), Element::<F>::largest_element());
}

#[test]
fn bit_counts() {
    assert_eq!(9, Element::<F257>::max_bits());
    assert_eq!(3, Element::<F7>::max_bits());
    assert_eq!(254, Element::<Bn128>::max_bits());
    assert_eq!(255, Element::<Bls12_381>::max_bits());
    assert_eq!(5, e::<F257>(19).bits());
    assert_eq!(e::<F257>(76), e::<F257>(19).shl(2));
}

#[test]
fn elements_print_in_decimal() {
    assert_eq!("0", e::<F257>(0).to_decimal());
    assert_eq!("256", e::<F257>(256).to_decimal());
    assert_eq!("1234567890123456789012345678901234567890", bn128("1234567890123456789012345678901234567890").to_decimal());
}
