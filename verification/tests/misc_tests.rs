use r1cs::encoding::{bytes_per_element, element_to_bytes_le, expression_entries, gadget_wires, witness_entries};
use r1cs::small_fields::{F257};
use r1cs::binary_expression::BinaryExpression;
use r1cs::curve::{CyclicGroup, EdwardsExpression, EdwardsPoint, Group};
use r1cs::expression::Expression;
use r1cs::field::{Bls12_381, Bn128, Element, Field};
use r1cs::gadget_builder::GadgetBuilder;
use r1cs::gadget_traits::CompressionFunction;
use r1cs::jubjub::{JubJub, JubJubPrimeSubgroup};
use r1cs::lcg::LCG;
use r1cs::matrices::{ElementMatrix, MdsMatrix};
use r1cs::merkle_damgard::MerkleDamgard;
use r1cs::merkle_trees::MerklePath;
use r1cs::mir;
use r1cs::mir::{
    mir_transaction, record_commitment, BlockInputs, Birth, Death, Mutation, Record,
    RecordOpening, TransactionInputs,
};
use r1cs::natural::Natural;
use r1cs::trie::Trie;
use r1cs::wire::Wire;
use r1cs::wire_values::WireValues;

fn values<F: Field>(assignments: &[(Wire, u128)]) -> WireValues<F> {
    let mut values = WireValues::new();
    for (wire, value) in assignments {
        values.set(*wire, Element::from_u128(*value));
    }
    values
}

fn e<F: Field>(n: u128) -> Element<F> {
    Element::from_u128(n)
}

fn bls(s: &str) -> Element<Bls12_381> {
    Element::from_str(s).unwrap()
}

const GENERATOR_X: &str = "11076627216317271660298050606127911965867021807910416450833192264015104452986";
const GENERATOR_Y: &str = "44412834903739585386157632289020980010620626017712148233229312325549216099227";

type Point = EdwardsPoint<Bls12_381, JubJubPrimeSubgroup>;

fn same_point(a: &Point, b: &Point) -> bool {
    a.x() == b.x() && a.y() == b.y()
}

#[test]
fn next_u32() {
    let mut lcg = LCG::new();
    assert_eq!(lcg.next_u32(), 1013904223);
    assert_eq!(lcg.next_u32(), 1196435762);
    assert_eq!(lcg.next_u32(), 3519870697);
    assert_eq!(lcg.next_u32(), 2868466484);
}

#[test]
fn next_biguint_bits_takes_low_chunk_first() {
    let mut lcg = LCG::new();
    // 1013904223 + (1196435762 mod 2^8) * 2^32.
    let n = lcg.next_biguint_bits(40);
    assert!(n.equals(&Natural::from_u128(215762269023)));
    assert_eq!(lcg.next_u32(), 3519870697);
}

#[test]
fn next_element_is_below_the_order() {
    let mut lcg = LCG::new();
    for _ in 0..20 {
        let element = lcg.next_element::<F257>().unwrap();
        assert!(element.lt(&Element::largest_element()) || element == Element::largest_element());
    }
}

#[test]
fn matrix_vector_multiplication() {
    let matrix = ElementMatrix::<F257>::new(vec![vec![e(1), e(2)], vec![e(3), e(4)]]);
    let product = matrix.mul_elements(&[e(5), e(6)]);
    assert_eq!(vec![e::<F257>(17), e::<F257>(39)], product);
    assert_eq!(2, matrix.num_rows());

    let mds = MdsMatrix::<F257>::new(vec![vec![e(1), e(2)], vec![e(3), e(4)]]);
    let mut builder = GadgetBuilder::<F257>::new();
    let (a, b) = (builder.wire(), builder.wire());
    let products = mds.mul_expressions(&[Expression::from_wire(a), Expression::from_wire(b)]);
    let values = values::<F257>(&[(a, 5), (b, 6)]);
    assert_eq!(e::<F257>(17), products[0].evaluate(&values));
    assert_eq!(e::<F257>(39), products[1].evaluate(&values));
}

/// A dummy compression function: (x, y) -> 2x + y.
struct TestCompress;

impl<F: Field> CompressionFunction<F> for TestCompress {
    fn compress(&self, _builder: &mut GadgetBuilder<F>, x: &Expression<F>, y: &Expression<F>) -> Expression<F> {
        x.mul_u128(2).add(y)
    }
}

#[test]
fn mir_block() {
    let mut builder = GadgetBuilder::<Bn128>::new();
    let old_root = builder.wire();
    let prefix = builder.binary_wire(1);
    let sibling = builder.wire();
    let path = MerklePath::new(BinaryExpression::from_binary_wire(&prefix), vec![Expression::from_wire(sibling)]);
    let inputs = BlockInputs {
        records_root: Expression::zero(),
        validator_list: vec![],
        old_records_root: Expression::from_wire(old_root),
        old_active_validators_root: Expression::zero(),
        old_next_validators_root: Expression::zero(),
        record_commitments_removed: vec![],
        record_commitments_added: vec![path],
    };
    let outputs = mir::mir_block(&mut builder, &inputs, &TestCompress);
    let gadget = builder.build();

    // Inserting along a left turn: the root goes from 2*0 + 7 = 7 to 2*1 + 7 = 9.
    let mut good = values::<Bn128>(&[(old_root, 7), (sibling, 7)]);
    good.set_binary_unsigned(&prefix, &Natural::from_u128(0));
    assert!(gadget.execute(&mut good));
    assert_eq!(e::<Bn128>(9), outputs.new_records_root.evaluate(&good));
    assert_eq!(Element::<Bn128>::zero(), outputs.new_active_validators_root.evaluate(&good));
    assert_eq!(Element::<Bn128>::zero(), outputs.new_next_validators_root.evaluate(&good));

    // A block that starts from another root is refused.
    let mut bad = values::<Bn128>(&[(old_root, 8), (sibling, 7)]);
    bad.set_binary_unsigned(&prefix, &Natural::from_u128(0));
    assert!(!gadget.execute(&mut bad));
}

fn record(n: u128) -> Record<Bn128> {
    Record {
        birth_predicate: Expression::from_u128(n),
        death_predicate: Expression::from_u128(n + 1),
        mutation_predicate: Expression::from_u128(n + 2),
        log_predicate: Expression::from_u128(n + 3),
        payload: Expression::from_u128(n + 4),
    }
}

#[test]
fn record_commitments_of_a_transaction() {
    let hash = MerkleDamgard::new(Element::zero(), TestCompress);
    let mut builder = GadgetBuilder::<Bn128>::new();
    let opening = RecordOpening { record: record(1), opening: Expression::from_u128(10) };
    let commitment = record_commitment(&mut builder, &opening, &hash, &TestCompress);
    assert_eq!(5, record(1).serialize().len());
    let inputs = TransactionInputs {
        births: vec![Birth { record_opening: RecordOpening { record: record(1), opening: Expression::from_u128(10) } }],
        deaths: vec![Death { record_opening: RecordOpening { record: record(2), opening: Expression::from_u128(0) } }],
        mutations: vec![Mutation {
            old_record_opening: RecordOpening { record: record(1), opening: Expression::from_u128(10) },
            new_record_opening: RecordOpening { record: record(2), opening: Expression::from_u128(0) },
        }],
    };
    let outputs = mir_transaction(&mut builder, &inputs, &hash, &TestCompress);
    let gadget = builder.build();
    let mut values = WireValues::<Bn128>::new();
    assert!(gadget.execute(&mut values));
    // Blocks 1..5 from 0: 1, 4, 11, 26, 57; with the length: 2*57 + 5 = 119; then 2*119 + 10.
    assert_eq!(e::<Bn128>(248), commitment.evaluate(&values));
    // Blocks 2..6 from 0: 2, 7, 18, 41, 88; with the length: 181; then 2*181 + 0.
    assert_eq!(2, outputs.record_commitments_added.len());
    assert_eq!(2, outputs.record_commitments_removed.len());
    assert_eq!(e::<Bn128>(248), outputs.record_commitments_added[0].evaluate(&values));
    assert_eq!(e::<Bn128>(362), outputs.record_commitments_added[1].evaluate(&values));
    assert_eq!(e::<Bn128>(362), outputs.record_commitments_removed[0].evaluate(&values));
    assert_eq!(e::<Bn128>(248), outputs.record_commitments_removed[1].evaluate(&values));
}

fn test_compress(x: Element<Bn128>, y: Element<Bn128>) -> Element<Bn128> {
    // x + (y + 1) * 2 + 2
    x.add(&y.add(&Element::one()).mul(&e(2))).add(&e(2))
}

#[test]
fn one_bit() {
    let mut trie = Trie::new(1);
    assert!(!trie.contains(&[false]));
    assert!(!trie.contains(&[true]));
    // The root should be hash(0, 0) = 4.
    assert_eq!(e::<Bn128>(4), trie.merkle_root(&test_compress));

    trie.insert(&[false]);
    assert!(trie.contains(&[false]));
    assert!(!trie.contains(&[true]));
    // The root should be hash(1, 0) = 5.
    assert_eq!(e::<Bn128>(5), trie.merkle_root(&test_compress));

    trie.insert(&[true]);
    assert!(trie.contains(&[false]));
    assert!(trie.contains(&[true]));
    // The root should be hash(1, 1) = 7.
    assert_eq!(e::<Bn128>(7), trie.merkle_root(&test_compress));
}

#[test]
fn three_bits() {
    let mut trie = Trie::new(3);
    // hash(0, 0) = 4; hash(4, 4) = 16; hash(16, 16) = 52.
    assert_eq!(e::<Bn128>(52), trie.merkle_root(&test_compress));

    trie.insert(&[false, true, true]);
    assert!(trie.contains(&[false, true, true]));
    assert!(!trie.contains(&[true, true, false]));
    assert!(!trie.contains(&[false, false, false]));
    assert!(!trie.contains(&[false, true, false]));
    // Leaf is 1; first parent is hash(0, 1) = 6; next parent is hash(4, 6) = 20; root is
    // hash(20, 16) = 56.
    assert_eq!(e::<Bn128>(56), trie.merkle_root(&test_compress));
}

#[test]
fn trie_insert_is_idempotent() {
    let mut trie = Trie::new(2);
    trie.insert(&[true, false]);
    let root = trie.merkle_root(&test_compress);
    trie.insert(&[true, false]);
    assert_eq!(root, trie.merkle_root(&test_compress));
    assert!(trie.contains(&[true, false]));
    assert!(!trie.contains(&[false, true]));
}

#[test]
fn jubjub_subgroup_check() {
    // The generator lies on the curve: the constraints of an Edwards point are satisfied.
    let g = JubJubPrimeSubgroup::generator_element();
    assert_eq!(&bls(GENERATOR_X), g.x());
    assert_eq!(&bls(GENERATOR_Y), g.y());
    let mut builder = GadgetBuilder::<Bls12_381>::new();
    let _p = EdwardsExpression::<Bls12_381, JubJubPrimeSubgroup>::new(
        &mut builder,
        Expression::from_element(g.x()),
        Expression::from_element(g.y()),
    );
    let gadget = builder.build();
    assert!(gadget.execute(&mut WireValues::new()));
}

#[test]
fn embedded_curve_subgroup_check() {
    // The identity is neutral for the generator.
    let g = JubJubPrimeSubgroup::generator_element();
    let identity = JubJubPrimeSubgroup::identity_element();
    assert!(same_point(&g, &JubJubPrimeSubgroup::add_elements(&identity, &g)));
    assert!(same_point(&g, &JubJubPrimeSubgroup::add_elements(&g, &identity)));
}

#[test]
fn point_not_on_curve_with_expressions() {
    let mut builder = GadgetBuilder::<Bls12_381>::new();
    let _p = EdwardsExpression::<Bls12_381, JubJub>::new(
        &mut builder,
        Expression::from_element(&bls(GENERATOR_X)),
        Expression::from_element(&bls(GENERATOR_Y).sub(&Element::one())),
    );
    let gadget = builder.build();
    assert!(!gadget.execute(&mut WireValues::new()));
}

#[test]
fn add_and_negate() {
    let g = JubJubPrimeSubgroup::generator_element();
    let p1 = EdwardsExpression::<Bls12_381, JubJubPrimeSubgroup>::from_point(&g);
    let p2 = EdwardsExpression::<Bls12_381, JubJubPrimeSubgroup>::new_unsafe(p1.x.neg(), p1.y.copy());
    let mut builder = GadgetBuilder::<Bls12_381>::new();
    let p3 = JubJubPrimeSubgroup::add_expressions(&mut builder, &p1, &p2);
    let gadget = builder.build();
    let mut values = WireValues::new();
    assert!(gadget.execute(&mut values));
    assert_eq!(Element::<Bls12_381>::zero(), p3.x.evaluate(&values));
    assert_eq!(Element::<Bls12_381>::one(), p3.y.evaluate(&values));
}

#[test]
fn doubling_matches_adding_to_itself() {
    let g = JubJubPrimeSubgroup::generator_element();
    let doubled = JubJubPrimeSubgroup::double_element(&g);
    let added = JubJubPrimeSubgroup::add_elements(&g, &g);
    assert!(same_point(&doubled, &added));

    let mut builder = GadgetBuilder::<Bls12_381>::new();
    let g_exp = JubJubPrimeSubgroup::generator_expression();
    let doubled_exp = JubJubPrimeSubgroup::double_expression(&mut builder, &g_exp);
    let gadget = builder.build();
    let mut values = WireValues::new();
    assert!(gadget.execute(&mut values));
    assert!(same_point(&doubled, &doubled_exp.evaluate(&values)));
}

#[test]
fn scalar_multiplication() {
    let g = JubJubPrimeSubgroup::generator_element();
    let identity = JubJubPrimeSubgroup::identity_element();
    let zero_times = JubJubPrimeSubgroup::scalar_mult_element(&g, &Element::zero());
    assert!(same_point(&identity, &zero_times));
    let three_times = JubJubPrimeSubgroup::scalar_mult_element(&g, &e(3));
    let expected = JubJubPrimeSubgroup::add_elements(&JubJubPrimeSubgroup::double_element(&g), &g);
    assert!(same_point(&expected, &three_times));

    let mut builder = GadgetBuilder::<Bls12_381>::new();
    let scalar = builder.wire();
    let g_exp = JubJubPrimeSubgroup::generator_expression();
    let product = JubJubPrimeSubgroup::scalar_mult_expression(&mut builder, &g_exp, &Expression::from_wire(scalar));
    let gadget = builder.build();
    let mut values = values::<Bls12_381>(&[(scalar, 3)]);
    assert!(gadget.execute(&mut values));
    assert!(same_point(&three_times, &product.evaluate(&values)));
}

#[test]
fn boolean_multiplication_selects_point_or_identity() {
    let g = JubJubPrimeSubgroup::generator_element();
    let mut builder = GadgetBuilder::<Bls12_381>::new();
    let bit = builder.boolean_wire();
    let g_exp = JubJubPrimeSubgroup::generator_expression();
    let selected = JubJubPrimeSubgroup::boolean_mult_expression(
        &mut builder,
        &g_exp,
        &r1cs::binary_expression::BooleanExpression::from_boolean_wire(&bit),
    );
    let gadget = builder.build();
    let mut values_on = WireValues::new();
    values_on.set_boolean(bit, true);
    assert!(gadget.execute(&mut values_on));
    assert!(same_point(&g, &selected.evaluate(&values_on)));
    let mut values_off = WireValues::new();
    values_off.set_boolean(bit, false);
    assert!(gadget.execute(&mut values_off));
    assert!(same_point(&JubJubPrimeSubgroup::identity_element(), &selected.evaluate(&values_off)));
}

#[test]
fn edwards_components() {
    let g = JubJubPrimeSubgroup::generator_element();
    let expression = EdwardsExpression::<Bls12_381, JubJubPrimeSubgroup>::from_point(&g);
    let components = expression.to_component_expression();
    assert_eq!(2, components.len());
    let rebuilt = EdwardsExpression::<Bls12_381, JubJubPrimeSubgroup>::from_component_expression_unsafe(components);
    let values = WireValues::new();
    assert_eq!(&bls(GENERATOR_Y), &rebuilt.compressed_expression().evaluate(&values));
    assert!(same_point(&g, &rebuilt.evaluate(&values)));
}

#[test]
fn element_bytes_are_fixed_width_little_endian() {
    assert_eq!(2, bytes_per_element::<F257>());
    assert_eq!(32, bytes_per_element::<Bn128>());
    assert_eq!(vec![0x00u8, 0x01], element_to_bytes_le(&e::<F257>(256)));
    assert_eq!(vec![0xffu8, 0x00], element_to_bytes_le(&e::<F257>(255)));
    assert_eq!(vec![0u8, 0], element_to_bytes_le(&Element::<F257>::zero()));
    let bytes = element_to_bytes_le(&e::<Bn128>(0x0102_0304));
    assert_eq!(32, bytes.len());
    assert_eq!(vec![4u8, 3, 2, 1], bytes[..4].to_vec());
    assert!(bytes[4..].iter().all(|b| *b == 0));
}

#[test]
fn gadget_wires_and_expression_entries() {
    let mut builder = GadgetBuilder::<F257>::new();
    let (x, y, unused) = (builder.wire(), builder.wire(), builder.wire());
    let sum = Expression::from_wire(x).add(&Expression::from_wire(y).scale(&e(3)));
    builder.assert_equal(&sum, &Expression::from_u128(5));
    let gadget = builder.build();
    let wires = gadget_wires(&gadget);
    let mut indices: Vec<u32> = wires.iter().map(|w| w.index).collect();
    indices.sort();
    assert_eq!(vec![0, x.index, y.index], indices);
    assert!(!indices.contains(&unused.index));

    let (ids, values) = expression_entries(&sum);
    assert_eq!(vec![x.index as u64, y.index as u64], ids);
    assert_eq!(vec![1u8, 0, 3, 0], values);

    let mut witness = values_of(&[(x, 2), (y, 1), (unused, 256)]);
    witness.set(unused, e(256));
    let (public_ids, public_values) = witness_entries(&witness, &[x], true);
    assert_eq!(vec![x.index as u64], public_ids);
    assert_eq!(vec![2u8, 0], public_values);
    let (private_ids, private_values) = witness_entries(&witness, &[x], false);
    assert_eq!(vec![y.index as u64, unused.index as u64], private_ids);
    assert_eq!(vec![1u8, 0, 0, 1], private_values);
}

fn values_of(assignments: &[(Wire, u128)]) -> WireValues<F257> {
    values::<F257>(assignments)
}

#[test]
fn next_biguint_returns_the_first_candidate_below_the_limit() {
    let limit = Natural::from_u128(100);
    let mut sampler = LCG::new();
    let drawn = sampler.next_biguint(&limit).unwrap();
    // Candidates have as many bits as 99, that is 7; the first one below 100 is returned.
    let mut replay = LCG::new();
    let mut expected = replay.next_biguint_bits(7);
    while !expected.lt(&limit) {
        expected = replay.next_biguint_bits(7);
    }
    assert!(drawn.equals(&expected));
    assert_eq!(sampler.next_u32(), replay.next_u32());
}

#[test]
fn matrix_solve_inverts_the_product() {
    let matrix = ElementMatrix::<F257>::new(vec![vec![e(1), e(2)], vec![e(3), e(4)]]);
    assert_eq!(Some(vec![e::<F257>(5), e::<F257>(6)]), matrix.solve(&[e(17), e(39)]));
    let singular = ElementMatrix::<F257>::new(vec![vec![e(1), e(2)], vec![e(2), e(4)]]);
    assert_eq!(None, singular.solve(&[e(1), e(1)]));
}
