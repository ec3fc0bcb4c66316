use r1cs::small_fields::{F257};
use r1cs::binary_expression::BooleanExpression;
use r1cs::expression::Expression;
use r1cs::field::{Bn128, Element, Field};
use r1cs::gadget_builder::GadgetBuilder;
use r1cs::natural::Natural;
use r1cs::wire::Wire;
use r1cs::wire_values::WireValues;

fn values<F: Field>(assignments: &[(Wire, u128)]) -> WireValues<F> {
    let mut values = WireValues::new();
    for (wire, value) in assignments {
        values.set(*wire, Element::from_u128(*value));
    }
    values
}

fn e<F: Field>(n: u128) -> Element<F> {
    Element::from_u128(n)
}

fn assert_eq_true<F: Field>(x: &BooleanExpression<F>, values: &WireValues<F>) {
    assert_eq!(true, x.evaluate(values));
}

fn assert_eq_false<F: Field>(x: &BooleanExpression<F>, values: &WireValues<F>) {
    assert_eq!(false, x.evaluate(values));
}

#[test]
fn constraint_not_satisfied() {
    let mut builder = GadgetBuilder::<Bn128>::new();
    let (x, y) = (builder.wire(), builder.wire());
    builder.assert_equal(&Expression::from_wire(x), &Expression::from_wire(y));
    let gadget = builder.build();
    let mut values = values(&[(x, 42), (y, 43)]);
    let constraints_satisfied = gadget.execute(&mut values);
    assert!(!constraints_satisfied);
}

#[test]
fn assert_binary_0_1() {
    let mut builder = GadgetBuilder::<Bn128>::new();
    let x = builder.wire();
    builder.assert_boolean(&Expression::from_wire(x));
    let gadget = builder.build();

    let mut values0 = values(&[(x, 0)]);
    assert!(gadget.execute(&mut values0));

    let mut values1 = values(&[(x, 1)]);
    assert!(gadget.execute(&mut values1));
}

#[test]
fn assert_binary_2() {
    let mut builder = GadgetBuilder::<Bn128>::new();
    let x = builder.wire();
    builder.assert_boolean(&Expression::from_wire(x));
    let gadget = builder.build();

    let mut values2 = values(&[(x, 2)]);
    assert!(!gadget.execute(&mut values2));
}

#[test]
fn selection() {
    let mut builder = GadgetBuilder::<Bn128>::new();
    let (c, x, y) = (builder.boolean_wire(), builder.wire(), builder.wire());
    let selection = builder.selection(
        &BooleanExpression::from_boolean_wire(&c),
        &Expression::from_wire(x),
        &Expression::from_wire(y),
    );
    let gadget = builder.build();
    let values_3_5 = values::<Bn128>(&[(x, 3), (y, 5)]);

    let mut values_0_3_5 = values_3_5.copy();
    values_0_3_5.set_boolean(c, false);
    assert!(gadget.execute(&mut values_0_3_5));
    assert_eq!(e::<Bn128>(5), selection.evaluate(&values_0_3_5));

    let mut values_1_3_5 = values_3_5.copy();
    values_1_3_5.set_boolean(c, true);
    assert!(gadget.execute(&mut values_1_3_5));
    assert_eq!(e::<Bn128>(3), selection.evaluate(&values_1_3_5));
}

#[test]
fn equal() {
    let mut builder = GadgetBuilder::<Bn128>::new();
    let (x, y) = (builder.wire(), builder.wire());
    let equal = builder.equal(&Expression::from_wire(x), &Expression::from_wire(y));
    let gadget = builder.build();

    let mut values_7_7 = values(&[(x, 7), (y, 7)]);
    assert!(gadget.execute(&mut values_7_7));
    assert_eq_true(&equal, &values_7_7);

    let mut values_6_7 = values(&[(x, 6), (y, 7)]);
    assert!(gadget.execute(&mut values_6_7));
    assert_eq_false(&equal, &values_6_7);

    let mut values_7_13 = values(&[(x, 7), (y, 13)]);
    assert!(gadget.execute(&mut values_7_13));
    assert_eq_false(&equal, &values_7_13);
}

#[test]
fn exp() {
    let mut builder = GadgetBuilder::<Bn128>::new();
    let x = builder.wire();
    let x_exp_0 = builder.exp(&Expression::from_wire(x), &e(0));
    let x_exp_1 = builder.exp(&Expression::from_wire(x), &e(1));
    let x_exp_2 = builder.exp(&Expression::from_wire(x), &e(2));
    let x_exp_3 = builder.exp(&Expression::from_wire(x), &e(3));
    let gadget = builder.build();

    let mut values = values(&[(x, 3)]);
    assert!(gadget.execute(&mut values));
    assert_eq!(e::<Bn128>(1), x_exp_0.evaluate(&values));
    assert_eq!(e::<Bn128>(3), x_exp_1.evaluate(&values));
    assert_eq!(e::<Bn128>(9), x_exp_2.evaluate(&values));
    assert_eq!(e::<Bn128>(27), x_exp_3.evaluate(&values));
}

#[test]
fn divides() {
    let mut builder = GadgetBuilder::<Bn128>::new();
    let x = builder.wire();
    let y = builder.wire();
    let divides = builder.divides(&Expression::from_wire(x), &Expression::from_wire(y));
    let gadget = builder.build();

    let mut values_1_1 = values(&[(x, 1), (y, 1)]);
    assert!(gadget.execute(&mut values_1_1));
    assert_eq_true(&divides, &values_1_1);

    let mut values_3_6 = values(&[(x, 3), (y, 6)]);
    assert!(gadget.execute(&mut values_3_6));
    assert_eq_true(&divides, &values_3_6);

    let mut values_3_7 = values(&[(x, 3), (y, 7)]);
    assert!(gadget.execute(&mut values_3_7));
    assert_eq_false(&divides, &values_3_7);
}

fn check_comparisons() {
    let mut builder = GadgetBuilder::<Bn128>::new();
    let (x, y) = (builder.wire(), builder.wire());
    let x_exp = Expression::from_wire(x);
    let y_exp = Expression::from_wire(y);
    let lt = builder.lt(&x_exp, &y_exp);
    let le = builder.le(&x_exp, &y_exp);
    let gt = builder.gt(&x_exp, &y_exp);
    let ge = builder.ge(&x_exp, &y_exp);
    let gadget = builder.build();

    let mut values_42_63 = values(&[(x, 42), (y, 63)]);
    assert!(gadget.execute(&mut values_42_63));
    assert_eq_true(&lt, &values_42_63);
    assert_eq_true(&le, &values_42_63);
    assert_eq_false(&gt, &values_42_63);
    assert_eq_false(&ge, &values_42_63);

    let mut values_42_42 = values(&[(x, 42), (y, 42)]);
    assert!(gadget.execute(&mut values_42_42));
    assert_eq_false(&lt, &values_42_42);
    assert_eq_true(&le, &values_42_42);
    assert_eq_false(&gt, &values_42_42);
    assert_eq_true(&ge, &values_42_42);

    let mut values_42_41 = values(&[(x, 42), (y, 41)]);
    assert!(gadget.execute(&mut values_42_41));
    assert_eq_false(&lt, &values_42_41);
    assert_eq_false(&le, &values_42_41);
    assert_eq_true(&gt, &values_42_41);
    assert_eq_true(&ge, &values_42_41);

    // Larger numbers, whose least significant chunk of y exceeds that of x while x < y.
    let mut values_large_lt = values(&[(x, 1u128 << 80 | 1u128), (y, 1u128 << 81)]);
    assert!(gadget.execute(&mut values_large_lt));
    assert_eq_true(&lt, &values_large_lt);
    assert_eq_true(&le, &values_large_lt);
    assert_eq_false(&gt, &values_large_lt);
    assert_eq_false(&ge, &values_large_lt);
}

#[test]
fn comparisons_comparisons() {
    check_comparisons();
}

#[test]
fn gadget_builder_compare_comparisons() {
    check_comparisons();
}

#[test]
fn join_fermat_prime_field() {
    let mut builder = GadgetBuilder::<F257>::new();
    let wire = builder.binary_wire(8);
    let exp = r1cs::binary_expression::BinaryExpression::<F257>::from_binary_wire(&wire);
    let joined = exp.join();
    let gadget = builder.build();
    let mut values = WireValues::new();
    values.set_binary_unsigned(&wire, &Natural::from_u128(0b1010_0101));
    assert!(gadget.execute(&mut values));
    assert_eq!(e::<F257>(0b1010_0101), joined.evaluate(&values));
}

#[test]
fn split_19_32() {
    let mut builder = GadgetBuilder::<Bn128>::new();
    let wire = builder.wire();
    let bit_wires = builder.split_bounded(&Expression::from_wire(wire), 32);
    let gadget = builder.build();
    let mut wire_values = values(&[(wire, 19)]);
    assert!(gadget.execute(&mut wire_values));
    assert_eq!(true, bit_wires.bits[0].evaluate(&wire_values));
    assert_eq!(true, bit_wires.bits[1].evaluate(&wire_values));
    assert_eq!(false, bit_wires.bits[2].evaluate(&wire_values));
    assert_eq!(false, bit_wires.bits[3].evaluate(&wire_values));
    assert_eq!(true, bit_wires.bits[4].evaluate(&wire_values));
    assert_eq!(false, bit_wires.bits[5].evaluate(&wire_values));
    assert_eq!(false, bit_wires.bits[6].evaluate(&wire_values));
}

#[test]
fn random_access() {
    let n = 10;
    let mut builder = GadgetBuilder::<Bn128>::new();
    let item_wires = builder.wires(n);
    let item_exps: Vec<Expression<Bn128>> = item_wires.iter().map(|w| Expression::from_wire(*w)).collect();
    let index_wire = builder.wire();
    let index_exp = Expression::from_wire(index_wire);
    let result = builder.random_access(item_exps, &index_exp);
    let gadget = builder.build();

    let mut wire_values = WireValues::new();
    for i in 0..n {
        wire_values.set(item_wires[i], Element::from_usize(i));
    }

    for i in 0..n {
        let mut wire_values_i = wire_values.copy();
        wire_values_i.set(index_wire, Element::from_usize(i));
        assert!(gadget.execute(&mut wire_values_i));
        assert_eq!(Element::<Bn128>::from_usize(i), result.evaluate(&wire_values_i));
    }
}

#[test]
fn sort_4_ascending() {
    let mut builder = GadgetBuilder::<Bn128>::new();
    let (a, b, c, d) = (builder.wire(), builder.wire(), builder.wire(), builder.wire());
    let outputs = builder.sort_ascending(&vec![
        Expression::from_wire(a),
        Expression::from_wire(b),
        Expression::from_wire(c),
        Expression::from_wire(d),
    ]);
    let gadget = builder.build();
    let mut values = values(&[(a, 4), (b, 7), (c, 0), (d, 1)]);
    assert!(gadget.execute(&mut values));
    assert_eq!(e::<Bn128>(0), outputs[0].evaluate(&values));
    assert_eq!(e::<Bn128>(1), outputs[1].evaluate(&values));
    assert_eq!(e::<Bn128>(4), outputs[2].evaluate(&values));
    assert_eq!(e::<Bn128>(7), outputs[3].evaluate(&values));
}

#[test]
fn sort_4_descending() {
    let mut builder = GadgetBuilder::<Bn128>::new();
    let (a, b, c, d) = (builder.wire(), builder.wire(), builder.wire(), builder.wire());
    let outputs = builder.sort_descending(&vec![
        Expression::from_wire(a),
        Expression::from_wire(b),
        Expression::from_wire(c),
        Expression::from_wire(d),
    ]);
    let gadget = builder.build();
    let mut values = values(&[(a, 4), (b, 7), (c, 0), (d, 1)]);
    assert!(gadget.execute(&mut values));
    assert_eq!(e::<Bn128>(7), outputs[0].evaluate(&values));
    assert_eq!(e::<Bn128>(4), outputs[1].evaluate(&values));
    assert_eq!(e::<Bn128>(1), outputs[2].evaluate(&values));
    assert_eq!(e::<Bn128>(0), outputs[3].evaluate(&values));
}

#[test]
fn sort_12345() {
    let mut builder = GadgetBuilder::<Bn128>::new();
    let wires = builder.wires(5);
    let inputs: Vec<Expression<Bn128>> = wires.iter().map(|w| Expression::from_wire(*w)).collect();
    let outputs = builder.sort_ascending(&inputs);
    let gadget = builder.build();
    let mut values = values(&[(wires[0], 4), (wires[1], 5), (wires[2], 2), (wires[3], 1), (wires[4], 3)]);
    assert!(gadget.execute(&mut values));
    for i in 0..5 {
        assert_eq!(Element::<Bn128>::from_usize(i + 1), outputs[i].evaluate(&values));
    }
}

#[test]
fn route_2x2() {
    let mut builder = GadgetBuilder::<Bn128>::new();
    builder.assert_permutation(
        &[Expression::from_u128(1), Expression::from_u128(2)],
        &[Expression::from_u128(2), Expression::from_u128(1)],
    );
    let gadget = builder.build();
    assert!(gadget.execute(&mut WireValues::new()));
}

#[test]
fn route_3x3() {
    let mut builder = GadgetBuilder::<Bn128>::new();
    builder.assert_permutation(
        &[Expression::from_u128(1), Expression::from_u128(2), Expression::from_u128(3)],
        &[Expression::from_u128(2), Expression::from_u128(1), Expression::from_u128(3)],
    );
    let gadget = builder.build();
    assert!(gadget.execute(&mut WireValues::new()));
}

#[test]
fn route_5x5() {
    type F = Bn128;
    let mut builder = GadgetBuilder::<F>::new();
    let a = builder.wires(5);
    let b = builder.wires(5);
    let a_exp: Vec<Expression<F>> = a.iter().map(|w| Expression::from_wire(*w)).collect();
    let b_exp: Vec<Expression<F>> = b.iter().map(|w| Expression::from_wire(*w)).collect();
    builder.assert_permutation(&a_exp, &b_exp);
    let gadget = builder.build();

    let mut values_normal = values(&[
        (a[0], 0), (a[1], 1), (a[2], 2), (a[3], 3), (a[4], 4),
        (b[0], 1), (b[1], 4), (b[2], 0), (b[3], 3), (b[4], 2),
    ]);
    assert!(gadget.execute(&mut values_normal));

    let mut values_with_duplicates = values(&[
        (a[0], 0), (a[1], 1), (a[2], 2), (a[3], 0), (a[4], 1),
        (b[0], 1), (b[1], 1), (b[2], 0), (b[3], 0), (b[4], 2),
    ]);
    assert!(gadget.execute(&mut values_with_duplicates));
}

#[test]
fn permutation_of_different_values_is_unsatisfiable() {
    let mut builder = GadgetBuilder::<Bn128>::new();
    let a = builder.wires(2);
    let b = builder.wires(2);
    let a_exp: Vec<Expression<Bn128>> = a.iter().map(|w| Expression::from_wire(*w)).collect();
    let b_exp: Vec<Expression<Bn128>> = b.iter().map(|w| Expression::from_wire(*w)).collect();
    builder.assert_permutation(&a_exp, &b_exp);
    let gadget = builder.build();
    let mut values = values(&[(a[0], 1), (a[1], 2), (b[0], 1), (b[1], 3)]);
    assert!(!gadget.execute(&mut values));
}

#[test]
fn inverse_quotient_and_modulus() {
    let mut builder = GadgetBuilder::<F257>::new();
    let (x, y) = (builder.wire(), builder.wire());
    let x_exp = Expression::from_wire(x);
    let y_exp = Expression::from_wire(y);
    let inverse = builder.inverse(&x_exp);
    let quotient = builder.quotient(&x_exp, &y_exp);
    let modulus = builder.modulus(&x_exp, &y_exp);
    let inverse_or_zero = builder.inverse_or_zero(&y_exp);
    let gadget = builder.build();
    let mut values = values(&[(x, 20), (y, 6)]);
    assert!(gadget.execute(&mut values));
    // 20 * 180 = 3600 = 14 * 257 + 2... so check by multiplication.
    assert_eq!(e::<F257>(1), inverse.evaluate(&values).mul(&e(20)));
    assert_eq!(e::<F257>(20), quotient.evaluate(&values).mul(&e(6)));
    assert_eq!(e::<F257>(2), modulus.evaluate(&values));
    assert_eq!(e::<F257>(1), inverse_or_zero.evaluate(&values).mul(&e(6)));
}

#[test]
fn inverse_of_zero_is_unsatisfiable_and_inverse_or_zero_maps_zero_to_zero() {
    let mut builder = GadgetBuilder::<F257>::new();
    let x = builder.wire();
    let inverse_or_zero = builder.inverse_or_zero(&Expression::from_wire(x));
    let gadget = builder.build();
    let mut values = values(&[(x, 0)]);
    assert!(gadget.execute(&mut values));
    assert_eq!(Element::<F257>::zero(), inverse_or_zero.evaluate(&values));
}

#[test]
fn nonzero_zero_and_nonequal() {
    let mut builder = GadgetBuilder::<F257>::new();
    let (x, y) = (builder.wire(), builder.wire());
    let nonzero = builder.nonzero(&Expression::from_wire(x));
    let zero = builder.zero(&Expression::from_wire(x));
    builder.assert_nonequal(&Expression::from_wire(x), &Expression::from_wire(y));
    let gadget = builder.build();

    let mut values_0_1 = values(&[(x, 0), (y, 1)]);
    assert!(gadget.execute(&mut values_0_1));
    assert_eq_false(&nonzero, &values_0_1);
    assert_eq_true(&zero, &values_0_1);

    let mut values_5_1 = values(&[(x, 5), (y, 1)]);
    assert!(gadget.execute(&mut values_5_1));
    assert_eq_true(&nonzero, &values_5_1);
    assert_eq_false(&zero, &values_5_1);

    let mut values_5_5 = values(&[(x, 5), (y, 5)]);
    assert!(!gadget.execute(&mut values_5_5));
}

#[test]
fn expression_arithmetic() {
    let mut builder = GadgetBuilder::<F257>::new();
    let (x, y) = (builder.wire(), builder.wire());
    let x_exp = Expression::from_wire(x);
    let y_exp = Expression::from_wire(y);
    let sum = x_exp.add(&y_exp);
    let difference = x_exp.sub(&y_exp);
    let negation = x_exp.neg();
    let scaled = x_exp.scale(&e(3));
    let tripled = y_exp.mul_u128(3);
    let halved = x_exp.div(&e(2));
    let total = Expression::sum_of_expressions(&[sum.copy(), difference.copy(), Expression::one()]);
    let values = values::<F257>(&[(x, 10), (y, 20)]);
    assert_eq!(e::<F257>(30), sum.evaluate(&values));
    assert_eq!(e::<F257>(247), difference.evaluate(&values));
    assert_eq!(e::<F257>(247), negation.evaluate(&values));
    assert_eq!(e::<F257>(30), scaled.evaluate(&values));
    assert_eq!(e::<F257>(60), tripled.evaluate(&values));
    assert_eq!(e::<F257>(5), halved.evaluate(&values));
    assert_eq!(e::<F257>(21), total.evaluate(&values));
    assert_eq!(2, sum.num_terms());
    assert!(sum.as_constant().is_none());
    assert_eq!(Some(e::<F257>(7)), Expression::<F257>::from_u128(7).as_constant());
}

#[test]
fn wire_values_get_and_contains() {
    let mut builder = GadgetBuilder::<F257>::new();
    let (x, y) = (builder.wire(), builder.wire());
    let mut values = WireValues::<F257>::new();
    assert!(values.contains(Wire::one()));
    assert!(!values.contains(x));
    values.set(x, e(9));
    assert!(values.contains(x));
    assert_eq!(&e::<F257>(9), values.get(x));
    assert!(values.try_get(y).is_none());
    assert!(values.contains_all(&[Wire::one(), x]));
    assert!(!values.contains_all(&[x, y]));
}

#[test]
fn assert_lt_and_assert_gt_reject_false_orders() {
    let mut builder = GadgetBuilder::<Bn128>::new();
    let (x, y) = (builder.wire(), builder.wire());
    builder.assert_lt(&Expression::from_wire(x), &Expression::from_wire(y));
    let lt_gadget = builder.build();
    assert!(lt_gadget.execute(&mut values(&[(x, 3), (y, 5)])));
    assert!(!lt_gadget.execute(&mut values(&[(x, 5), (y, 5)])));
    assert!(!lt_gadget.execute(&mut values(&[(x, 6), (y, 5)])));

    let mut builder = GadgetBuilder::<Bn128>::new();
    let (x, y) = (builder.wire(), builder.wire());
    builder.assert_gt(&Expression::from_wire(x), &Expression::from_wire(y));
    let gt_gadget = builder.build();
    assert!(gt_gadget.execute(&mut values(&[(x, 1u128 << 90), (y, 5)])));
    assert!(!gt_gadget.execute(&mut values(&[(x, 5), (y, 1u128 << 90)])));
}

#[test]
fn modulus_remainder_is_below_the_divisor() {
    let mut builder = GadgetBuilder::<Bn128>::new();
    let (x, y) = (builder.wire(), builder.wire());
    let r = builder.modulus(&Expression::from_wire(x), &Expression::from_wire(y));
    let gadget = builder.build();
    let mut vals = values(&[(x, 17), (y, 5)]);
    assert!(gadget.execute(&mut vals));
    assert_eq!(e::<Bn128>(2), r.evaluate(&vals));
}

#[test]
fn zero_expression_is_the_constant_zero() {
    assert_eq!(Some(e::<F257>(0)), Expression::<F257>::zero().as_constant());
}

#[test]
fn repeated_wire_is_summed() {
    let mut builder = GadgetBuilder::<F257>::new();
    let w = builder.wire();
    let doubled = Expression::<F257>::sum_of_wires(&[w, w]);
    let values = values::<F257>(&[(w, 10)]);
    assert_eq!(e::<F257>(20), doubled.evaluate(&values));
    assert_eq!(1, doubled.num_terms());
}

#[test]
fn sorting_nothing_gives_nothing() {
    let mut builder = GadgetBuilder::<Bn128>::new();
    let outputs = builder.sort_ascending(&[]);
    let gadget = builder.build();
    assert!(outputs.is_empty());
    assert!(gadget.execute(&mut WireValues::new()));
}
