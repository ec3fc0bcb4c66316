use r1cs::small_fields::{F257};
use r1cs::binary_expression::{BinaryExpression, BooleanExpression};
use r1cs::field::{Bn128, Field};
use r1cs::gadget_builder::GadgetBuilder;
use r1cs::natural::Natural;
use r1cs::wire::{BinaryWire, BooleanWire};
use r1cs::wire_values::WireValues;

fn binary_values<F: Field>(assignments: &[(&BinaryWire, u128)]) -> WireValues<F> {
    let mut values = WireValues::new();
    for (wire, value) in assignments {
        values.set_binary_unsigned(wire, &Natural::from_u128(*value));
    }
    values
}

fn boolean_values<F: Field>(assignments: &[(BooleanWire, bool)]) -> WireValues<F> {
    let mut values = WireValues::new();
    for (wire, value) in assignments {
        values.set_boolean(*wire, *value);
    }
    values
}

fn assert_natural(expected: u128, actual: Natural) {
    assert!(actual.equals(&Natural::from_u128(expected)), "expected {}, got {:?}", expected, actual);
}

fn check_binary_sum<F: Field>() {
    let mut builder = GadgetBuilder::<F>::new();
    let x = builder.binary_wire(4);
    let y = builder.binary_wire(4);
    let sum = builder.binary_sum(
        &BinaryExpression::from_binary_wire(&x),
        &BinaryExpression::from_binary_wire(&y),
    );
    let gadget = builder.build();

    // 10 + 3 = 13.
    let mut values = binary_values::<F>(&[(&x, 10), (&y, 3)]);
    assert!(gadget.execute(&mut values));
    assert_natural(13, sum.evaluate(&values));

    // 10 + 11 = 21.
    let mut values = binary_values::<F>(&[(&x, 10), (&y, 11)]);
    assert!(gadget.execute(&mut values));
    assert_natural(21, sum.evaluate(&values));
}

fn check_binary_sum_ignoring_overflow<F: Field>() {
    let mut builder = GadgetBuilder::<F>::new();
    let x = builder.binary_wire(4);
    let y = builder.binary_wire(4);
    let sum = builder.binary_sum_ignoring_overflow(
        &BinaryExpression::from_binary_wire(&x),
        &BinaryExpression::from_binary_wire(&y),
    );
    let gadget = builder.build();

    // 10 + 3 = 13.
    let mut values = binary_values::<F>(&[(&x, 10), (&y, 3)]);
    assert!(gadget.execute(&mut values));
    assert_natural(13, sum.evaluate(&values));

    // 10 + 11 = 21 % 16 = 5.
    let mut values = binary_values::<F>(&[(&x, 10), (&y, 11)]);
    assert!(gadget.execute(&mut values));
    assert_natural(5, sum.evaluate(&values));
}

fn check_binary_sum_asserting_no_overflow<F: Field>() {
    let mut builder = GadgetBuilder::<F>::new();
    let x = builder.binary_wire(4);
    let y = builder.binary_wire(4);
    let sum = builder.binary_sum_asserting_no_overflow(
        &BinaryExpression::from_binary_wire(&x),
        &BinaryExpression::from_binary_wire(&y),
    );
    let gadget = builder.build();

    // 10 + 3 = 13.
    let mut values = binary_values::<F>(&[(&x, 10), (&y, 3)]);
    assert!(gadget.execute(&mut values));
    assert_natural(13, sum.evaluate(&values));

    // 10 + 11 = [error].
    let mut values = binary_values::<F>(&[(&x, 10), (&y, 11)]);
    assert!(!gadget.execute(&mut values));
}

#[test]
fn binary_arithmetic_binary_sum() {
    check_binary_sum::<F257>();
}

#[test]
fn binary_arithmetic_binary_sum_ignoring_overflow() {
    check_binary_sum_ignoring_overflow::<F257>();
}

#[test]
fn binary_arithmetic_binary_sum_asserting_no_overflow() {
    check_binary_sum_asserting_no_overflow::<F257>();
}

#[test]
fn gadget_builder_binary_arithmetic_binary_sum() {
    check_binary_sum::<Bn128>();
}

#[test]
fn gadget_builder_binary_arithmetic_binary_sum_ignoring_overflow() {
    check_binary_sum_ignoring_overflow::<Bn128>();
}

#[test]
fn gadget_builder_binary_arithmetic_binary_sum_asserting_no_overflow() {
    check_binary_sum_asserting_no_overflow::<Bn128>();
}

#[test]
fn binary_summation_of_three_terms() {
    let mut builder = GadgetBuilder::<F257>::new();
    let x = builder.binary_wire(3);
    let y = builder.binary_wire(3);
    let z = builder.binary_wire(3);
    let terms = [
        BinaryExpression::from_binary_wire(&x),
        BinaryExpression::from_binary_wire(&y),
        BinaryExpression::from_binary_wire(&z),
    ];
    let sum = builder.binary_summation(&terms);
    let truncated = builder.binary_summation_ignoring_overflow(&terms);
    let gadget = builder.build();
    let mut values = binary_values::<F257>(&[(&x, 7), (&y, 6), (&z, 5)]);
    assert!(gadget.execute(&mut values));
    assert_natural(18, sum.evaluate(&values));
    assert_natural(2, truncated.evaluate(&values));
}

fn check_bitwise_not<F: Field>() {
    let mut builder = GadgetBuilder::<F>::new();
    let x = builder.binary_wire(8);
    let not_x = builder.bitwise_not(&BinaryExpression::from_binary_wire(&x));
    let gadget = builder.build();

    // ~00010011 = 11101100.
    let mut values = binary_values::<F>(&[(&x, 0b00010011)]);
    assert!(gadget.execute(&mut values));
    assert_natural(0b11101100, not_x.evaluate(&values));
}

fn check_rotate_dec_significance<F: Field>() {
    let mut builder = GadgetBuilder::<F>::new();
    let x = builder.binary_wire(8);
    let x_rot = builder.bitwise_rotate_dec_significance(&BinaryExpression::from_binary_wire(&x), 3);
    let gadget = builder.build();

    // 00000000 >> 3 = 00000000.
    let mut values_zero = binary_values::<F>(&[(&x, 0)]);
    assert!(gadget.execute(&mut values_zero));
    assert_natural(0, x_rot.evaluate(&values_zero));

    // 00010011 >> 3 = 01100010.
    let mut values_nonzero = binary_values::<F>(&[(&x, 0b00010011)]);
    assert!(gadget.execute(&mut values_nonzero));
    assert_natural(0b01100010, x_rot.evaluate(&values_nonzero));
}

fn check_rotate_dec_significance_multiple_wraps<F: Field>() {
    let mut builder = GadgetBuilder::<F>::new();
    let x = builder.binary_wire(8);
    let x_rot = builder.bitwise_rotate_dec_significance(&BinaryExpression::from_binary_wire(&x), 19);
    let gadget = builder.build();

    // 00010011 >> 19 = 00010011 >> 3 = 01100010.
    let mut values = binary_values::<F>(&[(&x, 0b00010011)]);
    assert!(gadget.execute(&mut values));
    assert_natural(0b01100010, x_rot.evaluate(&values));
}

#[test]
fn bitwise_operations_bitwise_not() {
    check_bitwise_not::<F257>();
}

#[test]
fn gadget_builder_bitwise_bitwise_not() {
    check_bitwise_not::<Bn128>();
}

#[test]
fn bitwise_and() {
    let mut builder = GadgetBuilder::<F257>::new();
    let x = builder.binary_wire(8);
    let y = builder.binary_wire(8);
    let x_and_y = builder.bitwise_and(
        &BinaryExpression::from_binary_wire(&x),
        &BinaryExpression::from_binary_wire(&y),
    );
    let gadget = builder.build();

    // 0 & 0 = 0.
    let mut values_0_0 = binary_values::<F257>(&[(&x, 0), (&y, 0)]);
    assert!(gadget.execute(&mut values_0_0));
    assert_natural(0, x_and_y.evaluate(&values_0_0));

    // 255 & 0 = 0.
    let mut values_255_0 = binary_values::<F257>(&[(&x, 0b11111111), (&y, 0)]);
    assert!(gadget.execute(&mut values_255_0));
    assert_natural(0, x_and_y.evaluate(&values_255_0));

    // 255 & 255 = 255.
    let mut values_255_255 = binary_values::<F257>(&[(&x, 0b11111111), (&y, 0b11111111)]);
    assert!(gadget.execute(&mut values_255_255));
    assert_natural(0b11111111, x_and_y.evaluate(&values_255_255));

    // 11111100 & 00111111 = 00111100.
    let mut values_11111100_00111111 = binary_values::<F257>(&[(&x, 0b11111100), (&y, 0b00111111)]);
    assert!(gadget.execute(&mut values_11111100_00111111));
    assert_natural(0b00111100, x_and_y.evaluate(&values_11111100_00111111));
}

#[test]
fn bitwise_or_and_xor() {
    let mut builder = GadgetBuilder::<F257>::new();
    let x = builder.binary_wire(8);
    let y = builder.binary_wire(8);
    let x_exp = BinaryExpression::from_binary_wire(&x);
    let y_exp = BinaryExpression::from_binary_wire(&y);
    let x_or_y = builder.bitwise_or(&x_exp, &y_exp);
    let x_xor_y = builder.bitwise_xor(&x_exp, &y_exp);
    let gadget = builder.build();
    let mut values = binary_values::<F257>(&[(&x, 0b11111100), (&y, 0b00111111)]);
    assert!(gadget.execute(&mut values));
    assert_natural(0b11111111, x_or_y.evaluate(&values));
    assert_natural(0b11000011, x_xor_y.evaluate(&values));
}

#[test]
fn bitwise_shifts_and_increasing_rotation() {
    let mut builder = GadgetBuilder::<F257>::new();
    let x = builder.binary_wire(8);
    let x_exp = BinaryExpression::from_binary_wire(&x);
    let shifted_up = builder.bitwise_shift_inc_significance(&x_exp, 2);
    let shifted_down = builder.bitwise_shift_dec_significance(&x_exp, 2);
    let rotated_up = builder.bitwise_rotate_inc_significance(&x_exp, 3);
    let gadget = builder.build();
    let mut values = binary_values::<F257>(&[(&x, 0b10010011)]);
    assert!(gadget.execute(&mut values));
    assert_natural(0b01001100, shifted_up.evaluate(&values));
    assert_natural(0b00100100, shifted_down.evaluate(&values));
    assert_natural(0b10011100, rotated_up.evaluate(&values));
}

#[test]
fn bitwise_operations_bitwise_rotate_dec_significance() {
    check_rotate_dec_significance::<F257>();
}

#[test]
fn gadget_builder_bitwise_bitwise_rotate_dec_significance() {
    check_rotate_dec_significance::<Bn128>();
}

#[test]
fn bitwise_operations_bitwise_rotate_dec_significance_multiple_wraps() {
    check_rotate_dec_significance_multiple_wraps::<F257>();
}

#[test]
fn gadget_builder_bitwise_bitwise_rotate_dec_significance_multiple_wraps() {
    check_rotate_dec_significance_multiple_wraps::<Bn128>();
}

fn check_boolean_operation(op: &str, expected: [bool; 4]) {
    let mut builder = GadgetBuilder::<Bn128>::new();
    let (x, y) = (builder.boolean_wire(), builder.boolean_wire());
    let x_exp = BooleanExpression::from_boolean_wire(&x);
    let y_exp = BooleanExpression::from_boolean_wire(&y);
    let result = match op {
        "and" => builder.and(&x_exp, &y_exp),
        "or" => builder.or(&x_exp, &y_exp),
        _ => builder.xor(&x_exp, &y_exp),
    };
    let gadget = builder.build();
    let cases = [(false, false), (false, true), (true, false), (true, true)];
    for (i, (a, b)) in cases.iter().enumerate() {
        let mut values = boolean_values::<Bn128>(&[(x, *a), (y, *b)]);
        assert!(gadget.execute(&mut values));
        assert_eq!(expected[i], result.evaluate(&values));
    }
}

#[test]
fn gadget_builder_boolean_and() {
    check_boolean_operation("and", [false, false, false, true]);
}

#[test]
fn gadget_builder_boolean_or() {
    check_boolean_operation("or", [false, true, true, true]);
}

#[test]
fn gadget_builder_boolean_xor() {
    check_boolean_operation("xor", [false, true, true, false]);
}

#[test]
fn binops_and() {
    check_boolean_operation("and", [false, false, false, true]);
}

#[test]
fn binops_or() {
    check_boolean_operation("or", [false, true, true, true]);
}

#[test]
fn binops_xor() {
    check_boolean_operation("xor", [false, true, true, false]);
}

#[test]
fn boolean_not() {
    let mut builder = GadgetBuilder::<Bn128>::new();
    let x = builder.boolean_wire();
    let not_x = builder.not(&BooleanExpression::from_boolean_wire(&x));
    let gadget = builder.build();
    let mut values = boolean_values::<Bn128>(&[(x, true)]);
    assert!(gadget.execute(&mut values));
    assert_eq!(false, not_x.evaluate(&values));
}

#[test]
fn binary_expression_reshaping() {
    let mut builder = GadgetBuilder::<F257>::new();
    let x = builder.binary_wire(6);
    let x_exp = BinaryExpression::from_binary_wire(&x);
    assert_eq!(6, x_exp.len());
    let truncated = x_exp.truncated(3);
    let padded = x_exp.padded(8);
    let chunks = x_exp.chunks(4);
    assert_eq!(3, truncated.len());
    assert_eq!(8, padded.len());
    assert_eq!(2, chunks.len());
    let joined = BinaryExpression::concat(&[truncated.copy(), BinaryExpression::from_u128(5)]);
    let values = binary_values::<F257>(&[(&x, 0b101110)]);
    assert_natural(0b110, truncated.evaluate(&values));
    assert_natural(0b101110, padded.evaluate(&values));
    assert_natural(0b1110, chunks[0].evaluate(&values));
    assert_natural(0b10, chunks[1].evaluate(&values));
    assert_natural(0b101110, joined.evaluate(&values));
    assert_natural(0b101110, BinaryExpression::<F257>::from_natural(&Natural::from_u128(0b101110)).evaluate(&values));
}

#[test]
fn binary_comparisons() {
    let mut builder = GadgetBuilder::<Bn128>::new();
    let x = builder.binary_wire(8);
    let y = builder.binary_wire(8);
    let x_exp = BinaryExpression::from_binary_wire(&x);
    let y_exp = BinaryExpression::from_binary_wire(&y);
    let lt = builder.lt_binary(&x_exp, &y_exp);
    let ge = builder.ge_binary(&x_exp, &y_exp);
    let gadget = builder.build();
    let mut values = binary_values::<Bn128>(&[(&x, 200), (&y, 201)]);
    assert!(gadget.execute(&mut values));
    assert_eq!(true, lt.evaluate(&values));
    assert_eq!(false, ge.evaluate(&values));
    let mut values = binary_values::<Bn128>(&[(&x, 201), (&y, 200)]);
    assert!(gadget.execute(&mut values));
    assert_eq!(false, lt.evaluate(&values));
    assert_eq!(true, ge.evaluate(&values));
}

#[test]
fn shifting_past_the_length_gives_zero() {
    let mut builder = GadgetBuilder::<F257>::new();
    let x = builder.binary_wire(8);
    let x_exp = BinaryExpression::from_binary_wire(&x);
    let shifted_down = builder.bitwise_shift_dec_significance(&x_exp, 11);
    let gadget = builder.build();
    let mut values = binary_values::<F257>(&[(&x, 0b10010011)]);
    assert!(gadget.execute(&mut values));
    assert_eq!(8, shifted_down.len());
    assert_natural(0, shifted_down.evaluate(&values));
}

#[test]
fn summation_is_one_bit_longer_than_the_longest_term() {
    let mut builder = GadgetBuilder::<F257>::new();
    let x = builder.binary_wire(4);
    let sum = builder.binary_summation(&[BinaryExpression::from_binary_wire(&x)]);
    let gadget = builder.build();
    assert_eq!(5, sum.len());
    let mut values = binary_values::<F257>(&[(&x, 13)]);
    assert!(gadget.execute(&mut values));
    assert_natural(13, sum.evaluate(&values));
}
