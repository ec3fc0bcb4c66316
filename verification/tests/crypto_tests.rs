use r1cs::small_fields::{F7, F11, F257};
use r1cs::binary_expression::{BinaryExpression, BooleanExpression};
use r1cs::davies_meyer::DaviesMeyer;
use r1cs::expression::Expression;
use r1cs::field::{Bn128, Element, Field};
use r1cs::gadget_builder::GadgetBuilder;
use r1cs::gadget_traits::{BlockCipher, CompressionFunction, HashFunction, MultiPermutation, Permutation};
use r1cs::matrices::MdsMatrix;
use r1cs::merkle_damgard::MerkleDamgard;
use r1cs::merkle_trees::MerklePath;
use r1cs::mimc::MiMCBlockCipher;
use r1cs::miyaguchi_preneel::MiyaguchiPreneel;
use r1cs::natural::Natural;
use r1cs::permutations::{InversePermutation, MonomialPermutation};
use r1cs::poseidon::{NumberOfRounds, PoseidonBuilder, PoseidonSbox};
use r1cs::wire::Wire;
use r1cs::wire_values::WireValues;

fn values<F: Field>(assignments: &[(Wire, u128)]) -> WireValues<F> {
    let mut values = WireValues::new();
    for (wire, value) in assignments {
        values.set(*wire, Element::from_u128(*value));
    }
    values
}

fn e<F: Field>(n: u128) -> Element<F> {
    Element::from_u128(n)
}

/// A trivial cipher: (k, i) -> 2k + 4i + 3ki.
struct TestCipher;

impl<F: Field> BlockCipher<F> for TestCipher {
    fn encrypt(&self, builder: &mut GadgetBuilder<F>, key: &Expression<F>, input: &Expression<F>) -> Expression<F> {
        let product = builder.product(key, input);
        key.mul_u128(2).add(&input.mul_u128(4)).add(&product.mul_u128(3))
    }

    fn decrypt(&self, _builder: &mut GadgetBuilder<F>, _key: &Expression<F>, _output: &Expression<F>) -> Expression<F> {
        panic!("Should never be called")
    }
}

/// A trivial compression function: (x, y) -> 2x + 3y.
struct TestCompressMd;

impl<F: Field> CompressionFunction<F> for TestCompressMd {
    fn compress(&self, _builder: &mut GadgetBuilder<F>, x: &Expression<F>, y: &Expression<F>) -> Expression<F> {
        x.mul_u128(2).add(&y.mul_u128(3))
    }
}

/// A dummy compression function: (x, y) -> 2x + y.
struct TestCompress;

impl<F: Field> CompressionFunction<F> for TestCompress {
    fn compress(&self, _builder: &mut GadgetBuilder<F>, x: &Expression<F>, y: &Expression<F>) -> Expression<F> {
        x.mul_u128(2).add(y)
    }
}

#[test]
fn davies_meyer_davies_meyer() {
    let mut builder = GadgetBuilder::<F7>::new();
    let x_wire = builder.wire();
    let y_wire = builder.wire();
    let x = Expression::from_wire(x_wire);
    let y = Expression::from_wire(y_wire);
    let dm = DaviesMeyer::new(TestCipher);
    let dm_output = dm.compress(&mut builder, &x, &y);
    let gadget = builder.build();
    let mut values = values(&[(x_wire, 2), (y_wire, 3)]);
    assert!(gadget.execute(&mut values));
    // (2x + 4y + 3xy) + y = 4 + 15 + 18 = 37 = 2.
    assert_eq!(e::<F7>(2), dm_output.evaluate(&values));
}

#[test]
fn gadget_builder_davies_meyer_davies_meyer() {
    let mut builder = GadgetBuilder::<Bn128>::new();
    let x_wire = builder.wire();
    let y_wire = builder.wire();
    let output = builder.davies_meyer(&Expression::from_wire(x_wire), &Expression::from_wire(y_wire), &TestCipher);
    let gadget = builder.build();
    let mut values = values(&[(x_wire, 2), (y_wire, 3)]);
    assert!(gadget.execute(&mut values));
    assert_eq!(e::<Bn128>(37), output.evaluate(&values));
}

#[test]
fn miyaguchi_preneel() {
    let mut builder = GadgetBuilder::<F7>::new();
    let x_wire = builder.wire();
    let y_wire = builder.wire();
    let x = Expression::from_wire(x_wire);
    let y = Expression::from_wire(y_wire);
    let mp = MiyaguchiPreneel::new(TestCipher);
    let mp_output = mp.compress(&mut builder, &x, &y);
    let gadget = builder.build();
    let mut values = values(&[(x_wire, 2), (y_wire, 3)]);
    assert!(gadget.execute(&mut values));
    // (2x + 4y + 3xy) + x + y = 4 + 12 + 18 + 2 + 3 = 39 = 4.
    assert_eq!(e::<F7>(4), mp_output.evaluate(&values));
}

#[test]
fn merkle_damgard_merkle_damgard() {
    let mut builder = GadgetBuilder::<F7>::new();
    let x_wire = builder.wire();
    let y_wire = builder.wire();
    let x = Expression::from_wire(x_wire);
    let y = Expression::from_wire(y_wire);
    let blocks = &[x, y];
    let md = MerkleDamgard::new(e(2), TestCompressMd);
    let hash = md.hash(&mut builder, blocks);
    let gadget = builder.build();
    let mut values = values(&[(x_wire, 3), (y_wire, 4)]);
    assert!(gadget.execute(&mut values));
    // 2 -> 2*2 + 3*3 = 6 -> 6*2 + 4*3 = 3 -> (length 2) 3*2 + 2*3 = 5.
    assert_eq!(e::<F7>(5), hash.evaluate(&values));
}

#[test]
fn gadget_builder_merkle_damgard_merkle_damgard() {
    let mut builder = GadgetBuilder::<F7>::new();
    let x_wire = builder.wire();
    let y_wire = builder.wire();
    let x = Expression::from_wire(x_wire);
    let y = Expression::from_wire(y_wire);
    let blocks = &[x, y];
    let md = builder.merkle_damgard(&e(2), blocks, &TestCompressMd);
    let gadget = builder.build();
    let mut values = values(&[(x_wire, 3), (y_wire, 4)]);
    assert!(gadget.execute(&mut values));
    assert_eq!(e::<F7>(5), md.evaluate(&values));
}

#[test]
fn merkle_step() {
    let mut builder = GadgetBuilder::<F257>::new();
    let node = builder.wire();
    let sibling = builder.wire();
    let is_right = builder.boolean_wire();
    let parent_hash = builder.merkle_tree_step(
        &Expression::from_wire(node),
        &Expression::from_wire(sibling),
        &BooleanExpression::from_boolean_wire(&is_right),
        &TestCompress,
    );
    let gadget = builder.build();

    let mut values_3_4 = values(&[(node, 3), (sibling, 4)]);
    values_3_4.set_boolean(is_right, false);
    assert!(gadget.execute(&mut values_3_4));
    assert_eq!(e::<F257>(10), parent_hash.evaluate(&values_3_4));

    let mut values_4_3 = values(&[(node, 3), (sibling, 4)]);
    values_4_3.set_boolean(is_right, true);
    assert!(gadget.execute(&mut values_4_3));
    assert_eq!(e::<F257>(11), parent_hash.evaluate(&values_4_3));
}

#[test]
fn merkle_root() {
    let mut builder = GadgetBuilder::<F257>::new();
    let prefix_wire = builder.binary_wire(3);
    let (sibling_1, sibling_2, sibling_3) = (builder.wire(), builder.wire(), builder.wire());
    let path = MerklePath::new(
        BinaryExpression::from_binary_wire(&prefix_wire),
        vec![
            Expression::from_wire(sibling_1),
            Expression::from_wire(sibling_2),
            Expression::from_wire(sibling_3),
        ],
    );
    let root_hash = builder.merkle_tree_root(&Expression::one(), &path, &TestCompress);
    let gadget = builder.build();
    let mut values = values(&[(sibling_1, 3), (sibling_2, 3), (sibling_3, 9)]);
    values.set_binary_unsigned(&prefix_wire, &Natural::from_u128(0b010));
    assert!(gadget.execute(&mut values));
    // 1 -> 2*1 + 3 = 5 -> 2*3 + 5 = 11 -> 2*11 + 9 = 31.
    assert_eq!(e::<F257>(31), root_hash.evaluate(&values));
}

fn check_trie_step(bit_means_left: bool) {
    let mut builder = GadgetBuilder::<Bn128>::new();
    let node = builder.wire();
    let sibling = builder.wire();
    let bit = builder.boolean_wire();
    let parent_hash = builder.merkle_trie_step(
        &Expression::from_wire(node),
        &Expression::from_wire(sibling),
        &BooleanExpression::from_boolean_wire(&bit),
        &TestCompress,
    );
    let gadget = builder.build();

    // The node on the left: 2*3 + 4 = 10.
    let mut values_3_4 = values(&[(node, 3), (sibling, 4)]);
    values_3_4.set_boolean(bit, bit_means_left);
    assert!(gadget.execute(&mut values_3_4));
    assert_eq!(e::<Bn128>(10), parent_hash.evaluate(&values_3_4));

    // The node on the right: 2*4 + 3 = 11.
    let mut values_4_3 = values(&[(node, 3), (sibling, 4)]);
    values_4_3.set_boolean(bit, !bit_means_left);
    assert!(gadget.execute(&mut values_4_3));
    assert_eq!(e::<Bn128>(11), parent_hash.evaluate(&values_4_3));
}

fn check_trie_root() {
    let mut builder = GadgetBuilder::<Bn128>::new();
    let prefix_wire = builder.binary_wire(3);
    let (sibling_1, sibling_2, sibling_3) = (builder.wire(), builder.wire(), builder.wire());
    let path = MerklePath::new(
        BinaryExpression::from_binary_wire(&prefix_wire),
        vec![
            Expression::from_wire(sibling_1),
            Expression::from_wire(sibling_2),
            Expression::from_wire(sibling_3),
        ],
    );
    let root_hash = builder.merkle_trie_root(true, &path, &TestCompress);
    let gadget = builder.build();
    let mut values = values(&[(sibling_1, 3), (sibling_2, 3), (sibling_3, 9)]);
    values.set_binary_unsigned(&prefix_wire, &Natural::from_u128(0b010));
    assert!(gadget.execute(&mut values));
    // 1 -> 2*1 + 3 = 5 -> 2*3 + 5 = 11 -> 2*11 + 9 = 31.
    assert_eq!(e::<Bn128>(31), root_hash.evaluate(&values));
}

#[test]
fn merkle_proofs_mimc_merkle_step() {
    check_trie_step(false);
}

#[test]
fn merkle_proofs_mimc_merkle_root() {
    check_trie_root();
}

#[test]
fn merkle_trees_mimc_merkle_step() {
    check_trie_step(false);
}

#[test]
fn merkle_trees_mimc_merkle_root() {
    check_trie_root();
}

#[test]
fn merkle_mimc_merkle_step() {
    check_trie_step(false);
}

#[test]
fn merkle_mimc_merkle_root() {
    check_trie_root();
}

#[test]
fn trie_insert_and_delete_roots() {
    let mut builder = GadgetBuilder::<Bn128>::new();
    let prefix_wire = builder.binary_wire(2);
    let (sibling_1, sibling_2) = (builder.wire(), builder.wire());
    let path = MerklePath::new(
        BinaryExpression::from_binary_wire(&prefix_wire),
        vec![Expression::from_wire(sibling_1), Expression::from_wire(sibling_2)],
    );
    let (without, with) = builder.merkle_trie_insert(&path, &TestCompress);
    let (deleted_with, deleted_without) = builder.merkle_trie_delete(&path, &TestCompress);
    let gadget = builder.build();
    let mut values = values(&[(sibling_1, 5), (sibling_2, 7)]);
    values.set_binary_unsigned(&prefix_wire, &Natural::from_u128(0b01));
    assert!(gadget.execute(&mut values));
    // Without: 0 -> 2*5 + 0 = 10 -> 2*10 + 7 = 27. With: 1 -> 2*5 + 1 = 11 -> 2*11 + 7 = 29.
    assert_eq!(e::<Bn128>(27), without.evaluate(&values));
    assert_eq!(e::<Bn128>(29), with.evaluate(&values));
    assert_eq!(e::<Bn128>(29), deleted_with.evaluate(&values));
    assert_eq!(e::<Bn128>(27), deleted_without.evaluate(&values));
}

#[test]
fn mimc_cube_and_cube_root() {
    let mut builder = GadgetBuilder::<F11>::new();
    let x_wire = builder.wire();
    let x = Expression::from_wire(x_wire);
    let x_cubed = builder.exp(&x, &e(3));
    let cube_root = builder.cube_root(&x_cubed);
    let gadget = builder.build();
    for i in 0u128..11 {
        let mut values = values(&[(x_wire, i)]);
        assert!(gadget.execute(&mut values));
        assert_eq!(e::<F11>(i), cube_root.evaluate(&values));
    }
}

#[test]
fn mimc_encrypt_and_decrypt() {
    let mut builder = GadgetBuilder::<F11>::new();
    let key_wire = builder.wire();
    let input_wire = builder.wire();
    let key = Expression::from_wire(key_wire);
    let input = Expression::from_wire(input_wire);
    let mimc = MiMCBlockCipher::new_default().unwrap();
    let encrypted = mimc.encrypt(&mut builder, &key, &input);
    let decrypted = mimc.decrypt(&mut builder, &key, &encrypted);
    let gadget = builder.build();
    let mut values = values(&[(key_wire, 2), (input_wire, 3)]);
    assert!(gadget.execute(&mut values));
    assert_eq!(input.evaluate(&values), decrypted.evaluate(&values));
}

#[test]
fn mimc_mimc_f11() {
    let constants = &[e::<F11>(5), e::<F11>(7)];
    let mut builder = GadgetBuilder::<F11>::new();
    let key_wire = builder.wire();
    let input_wire = builder.wire();
    let key = Expression::from_wire(key_wire);
    let input = Expression::from_wire(input_wire);
    let mimc = MiMCBlockCipher::new(constants);
    let mimc_output = mimc.encrypt(&mut builder, &key, &input);
    let gadget = builder.build();
    let mut values = values(&[(key_wire, 3), (input_wire, 6)]);
    assert!(gadget.execute(&mut values));
    assert_eq!(e::<F11>(2), mimc_output.evaluate(&values));
}

#[test]
fn gadget_builder_mimc_mimc_f11() {
    let constants = &[e::<F11>(5), e::<F11>(7)];
    let mut builder = GadgetBuilder::<F11>::new();
    let key_wire = builder.wire();
    let input_wire = builder.wire();
    let key = Expression::from_wire(key_wire);
    let input = Expression::from_wire(input_wire);
    let mimc = builder.mimc(&key, &input, constants);
    let gadget = builder.build();
    let mut values = values(&[(key_wire, 3), (input_wire, 6)]);
    assert!(gadget.execute(&mut values));
    assert_eq!(e::<F11>(2), mimc.evaluate(&values));
}

#[test]
fn mimc_recommended_rounds_for_known_fields() {
    // The least r with 3^r >= 2^n: 3^3 = 27 >= 2^4 > 9 = 3^2, and 3^161 >= 2^255 > 3^160.
    assert_eq!(3, GadgetBuilder::<F11>::mimc_recommended_rounds());
    assert_eq!(161, GadgetBuilder::<r1cs::field::Bls12_381>::mimc_recommended_rounds());
}

#[test]
fn mimc_permutation_round_trip() {
    let mut builder = GadgetBuilder::<F11>::new();
    let x_wire = builder.wire();
    let x = Expression::from_wire(x_wire);
    let permutation = r1cs::mimc::MiMCPermutation { cipher: MiMCBlockCipher::new(&[e::<F11>(1), e::<F11>(4)]) };
    let permuted = permutation.permute(&mut builder, &x);
    let restored = permutation.inverse(&mut builder, &permuted);
    let gadget = builder.build();
    for i in 0u128..11 {
        let mut values = values(&[(x_wire, i)]);
        assert!(gadget.execute(&mut values));
        assert_eq!(e::<F11>(i), restored.evaluate(&values));
    }
}

#[test]
fn permutations_cube_and_cube_root() {
    let mut builder = GadgetBuilder::<F11>::new();
    let permutation = MonomialPermutation::new(e(3));
    let x_wire = builder.wire();
    let x = Expression::from_wire(x_wire);
    let x_cubed = permutation.permute(&mut builder, &x);
    let cube_root = permutation.inverse(&mut builder, &x_cubed);
    let gadget = builder.build();
    for i in 0u128..11 {
        let mut values = values(&[(x_wire, i)]);
        assert!(gadget.execute(&mut values));
        assert_eq!(e::<F11>(i), cube_root.evaluate(&values));
    }
}

#[test]
fn inverse_permutation_maps_zero_to_zero() {
    let mut builder = GadgetBuilder::<F11>::new();
    let x_wire = builder.wire();
    let x = Expression::from_wire(x_wire);
    let inverse = InversePermutation {}.permute(&mut builder, &x);
    let gadget = builder.build();
    let mut values_0 = values(&[(x_wire, 0)]);
    assert!(gadget.execute(&mut values_0));
    assert_eq!(e::<F11>(0), inverse.evaluate(&values_0));
    let mut values_3 = values(&[(x_wire, 3)]);
    assert!(gadget.execute(&mut values_3));
    assert_eq!(e::<F11>(4), inverse.evaluate(&values_3));
}

fn mds_f11() -> MdsMatrix<F11> {
    MdsMatrix::<F11>::new(vec![
        vec![e(2), e(3), e(1), e(1)],
        vec![e(1), e(2), e(3), e(1)],
        vec![e(1), e(1), e(2), e(3)],
        vec![e(3), e(1), e(1), e(2)],
    ])
}

#[test]
fn poseidon_x3_f11() {
    let mut poseidon_builder = PoseidonBuilder::new(4);
    poseidon_builder
        .sbox(PoseidonSbox::Exponentiation3)
        .num_rounds(NumberOfRounds { full: 4, partial: 6 })
        .mds_matrix(mds_f11());
    let poseidon = poseidon_builder.build();

    let mut builder = GadgetBuilder::new();
    let input_wires = builder.wires(4);
    let input_exps: Vec<Expression<F11>> = input_wires.iter().map(|w| Expression::from_wire(*w)).collect();
    let _outputs = poseidon.permute(&mut builder, &input_exps);
    let gadget = builder.build();

    let mut values = values(&[(input_wires[0], 0), (input_wires[1], 1), (input_wires[2], 2), (input_wires[3], 3)]);
    assert!(gadget.execute(&mut values));
}

#[test]
fn num_sboxes_counts_full_and_partial_rounds() {
    assert_eq!(4 * 4 + 6, r1cs::poseidon::num_sboxes(4, NumberOfRounds { full: 4, partial: 6 }));
}

#[test]
fn poseidon_rounds_give_expected_values() {
    // Width 2, x^3 in F11, one full round on each side of one partial round. Each round applies
    // the S-box (to both elements, or to the first only), then multiplies by the MDS matrix.
    let mut poseidon_builder = PoseidonBuilder::new(2);
    poseidon_builder
        .sbox(PoseidonSbox::Exponentiation3)
        .num_rounds(NumberOfRounds { full: 2, partial: 1 })
        .mds_matrix(MdsMatrix::<F11>::new(vec![vec![e(1), e(2)], vec![e(3), e(4)]]));
    let poseidon = poseidon_builder.build();

    let mut builder = GadgetBuilder::new();
    let input_wires = builder.wires(2);
    let input_exps: Vec<Expression<F11>> = input_wires.iter().map(|w| Expression::from_wire(*w)).collect();
    let outputs = poseidon.permute(&mut builder, &input_exps);
    let gadget = builder.build();

    let mut values = values(&[(input_wires[0], 2), (input_wires[1], 5)]);
    assert!(gadget.execute(&mut values));
    assert_eq!(e::<F11>(6), outputs[0].evaluate(&values));
    assert_eq!(e::<F11>(3), outputs[1].evaluate(&values));
}

#[test]
fn inverse_permutation_round_trip() {
    let mut builder = GadgetBuilder::<F11>::new();
    let x_wire = builder.wire();
    let x = Expression::from_wire(x_wire);
    let permuted = InversePermutation {}.permute(&mut builder, &x);
    let recovered = InversePermutation {}.inverse(&mut builder, &permuted);
    let gadget = builder.build();
    for v in 0..11u128 {
        let mut vals = values(&[(x_wire, v)]);
        assert!(gadget.execute(&mut vals));
        assert_eq!(e::<F11>(v), recovered.evaluate(&vals));
    }
}

#[test]
fn element_division_and_inverse() {
    let a = e::<F11>(7);
    let b = e::<F11>(3);
    // 3 * 4 = 12 = 1 in F11, and 7 / 3 = 7 * 4 = 28 = 6.
    assert_eq!(e::<F11>(4), b.multiplicative_inverse());
    assert_eq!(e::<F11>(6), a.div(&b));
    assert_eq!(a, a.div(&b).mul(&b));
}

#[test]
fn a_draw_gives_an_element_only_below_the_order() {
    assert_eq!(Some(e::<F11>(5)), Element::<F11>::from_draw(vec![5]));
    assert_eq!(None, Element::<F11>::from_draw(vec![11]));
    assert_eq!(None, Element::<F11>::from_draw(vec![0, 1]));
}

#[test]
fn poseidon_inverse_undoes_permute() {
    let mut poseidon_builder = PoseidonBuilder::new(4);
    poseidon_builder
        .sbox(PoseidonSbox::Exponentiation3)
        .num_rounds(NumberOfRounds { full: 4, partial: 6 })
        .mds_matrix(mds_f11());
    let poseidon = poseidon_builder.build();

    let mut builder = GadgetBuilder::new();
    let input_wires = builder.wires(4);
    let input_exps: Vec<Expression<F11>> = input_wires.iter().map(|w| Expression::from_wire(*w)).collect();
    let outputs = poseidon.permute(&mut builder, &input_exps);
    let recovered = poseidon.inverse(&mut builder, &outputs);
    let gadget = builder.build();

    let mut values = values(&[(input_wires[0], 0), (input_wires[1], 1), (input_wires[2], 2), (input_wires[3], 3)]);
    assert!(gadget.execute(&mut values));
    for i in 0..4 {
        assert_eq!(e::<F11>(i as u128), recovered[i].evaluate(&values));
    }
}
