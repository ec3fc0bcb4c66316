//! Merkle tree paths and roots.

use vstd::prelude::*;

use crate::binary_expression::{evals, BinaryExpression, BooleanExpression};
use crate::expression::Expression;
use crate::field::{field_add, field_mul, field_sub, Field};
use crate::gadget_builder::{
    lemma_eval_bound, lemma_extends_trans, lemma_satisfied_prefix, valid_assignment, GadgetBuilder,
};
use crate::gadget_traits::{expression_values, CompressionFunction};

verus! {

/// One layer up a Merkle tree: a turn bit of 1 puts the node on the right of its sibling, 0 on the
/// left.
pub open spec fn merkle_step_value<F: Field, CF: CompressionFunction<F>>(
    compress: CF,
    node: nat,
    sibling: nat,
    bit: nat,
) -> nat {
    if bit == 1 {
        compress.compress_value(sibling, node)
    } else {
        compress.compress_value(node, sibling)
    }
}

/// The root reached from `leaf` by the turns `bits` and the `siblings`, from the bottom up.
pub open spec fn merkle_root_value<F: Field, CF: CompressionFunction<F>>(
    compress: CF,
    leaf: nat,
    bits: Seq<nat>,
    siblings: Seq<nat>,
) -> nat
    decreases siblings.len(),
{
    if siblings.len() == 0 {
        leaf
    } else {
        merkle_step_value(
            compress,
            merkle_root_value(compress, leaf, bits.drop_last(), siblings.drop_last()),
            siblings.last(),
            bits.last(),
        )
    }
}

/// Every value is 0 or 1.
pub open spec fn all_binary(bits: Seq<nat>) -> bool {
    forall|i: int| 0 <= i < bits.len() ==> #[trigger] bits[i] == 0 || bits[i] == 1
}


/// The path from a leaf to the root of a binary Merkle tree.
#[derive(Debug)]
pub struct MerklePath<F: Field> {
    /// The sequence of "turns" when traversing up the tree. The value of each bit indicates the
    /// index of the target node relative to its parent. For example, a zero bit indicates that the
    /// target node is the left child, and its sibling is the right child.
    prefix: BinaryExpression<F>,
    /// The sequence of (hashes of) sibling nodes which are encountered along the path up the tree.
    siblings: Vec<Expression<F>>,
}

impl<F: Field> MerklePath<F> {
    /// The number of layers.
    pub closed spec fn spec_len(&self) -> nat {
        self.siblings@.len()
    }

    /// The turns, bottom up.
    pub closed spec fn prefix_view(&self) -> Seq<Seq<(u32, nat)>> {
        self.prefix@
    }

    /// The siblings, bottom up.
    pub closed spec fn siblings_view(&self) -> Seq<Expression<F>> {
        self.siblings@
    }

    /// The turns and siblings must be equally many.
    #[verifier::type_invariant]
    spec fn inv(&self) -> bool {
        self.prefix@.len() == self.siblings@.len()
    }

    pub fn new(prefix: BinaryExpression<F>, siblings: Vec<Expression<F>>) -> (r: Self)
        requires
            prefix@.len() == siblings@.len(),
        ensures
            r.spec_len() == siblings@.len(),
            r.prefix_view() == prefix@,
            r.siblings_view() == siblings@,
    {
        MerklePath { prefix, siblings }
    }

    pub fn copy(&self) -> (r: Self)
        ensures
            r.spec_len() == self.spec_len(),
    {
        proof {
            use_type_invariant(self);
        }
        let mut siblings: Vec<Expression<F>> = Vec::new();
        let mut i: usize = 0;
        while i < self.siblings.len()
            invariant
                i <= self.siblings@.len(),
                siblings@.len() == i,
            decreases self.siblings@.len() - i,
        {
            siblings.push(self.siblings[i].copy());
            i += 1;
        }
        MerklePath { prefix: self.prefix.copy(), siblings }
    }
}

impl<F: Field> Clone for MerklePath<F> {
    fn clone(&self) -> (r: Self)
        ensures
            r.spec_len() == self.spec_len(),
    {
        self.copy()
    }
}

impl<F: Field> GadgetBuilder<F> {
    /// Update an intermediate hash value in a Merkle tree, given the sibling at the current layer.
    pub fn merkle_tree_step<CF: CompressionFunction<F>>(
        &mut self,
        node: &Expression<F>,
        sibling: &Expression<F>,
        prefix_bit: &BooleanExpression<F>,
        compress: &CF,
    ) -> (r: Expression<F>)
        requires
            old(self).has_room(1 + compress.compress_wires()),
        ensures
            final(self).extends(*old(self)),
            final(self).next_index() <= old(self).next_index() + 1 + compress.compress_wires(),
            forall|vals: Map<u32, nat>|
                #![trigger final(self).satisfied(vals)]
                final(self).satisfied(vals) && valid_assignment(vals, F::modulus()) && (
                prefix_bit.eval(vals) == 0 || prefix_bit.eval(vals) == 1) ==> r.eval(vals)
                    == merkle_step_value(*compress, node.eval(vals), sibling.eval(vals), prefix_bit.eval(vals)),
    {
        let ghost start = *self;
        let left = self.selection(prefix_bit, sibling, node);
        let right = sibling.add(node).sub(&left);
        let ghost mid = *self;
        let r = compress.compress(self, &left, &right);
        proof {
            lemma_extends_trans(*self, mid, start);
            assert forall|vals: Map<u32, nat>| #![trigger self.satisfied(vals)]
                self.satisfied(vals) && valid_assignment(vals, F::modulus()) && (prefix_bit.eval(vals)
                == 0 || prefix_bit.eval(vals) == 1) implies r.eval(vals) == merkle_step_value(
                *compress,
                node.eval(vals),
                sibling.eval(vals),
                prefix_bit.eval(vals),
            ) by {
                lemma_satisfied_prefix(*self, mid, vals);
                lemma_eval_bound::<F>(node, vals);
                lemma_eval_bound::<F>(sibling, vals);
                crate::field::lemma_add_sub_cancel(sibling.eval(vals), node.eval(vals), F::modulus());
                assert(right.eval(vals) == field_sub(
                    field_add(sibling.eval(vals), node.eval(vals), F::modulus()),
                    left.eval(vals),
                    F::modulus(),
                ));
            }
        }
        r
    }

    /// Compute a Merkle root given a leaf value and its Merkle path.
    pub fn merkle_tree_root<CF: CompressionFunction<F>>(
        &mut self,
        leaf: &Expression<F>,
        path: &MerklePath<F>,
        compress: &CF,
    ) -> (r: Expression<F>)
        requires
            old(self).has_room(path.spec_len() * (1 + compress.compress_wires())),
        ensures
            final(self).extends(*old(self)),
            final(self).next_index() <= old(self).next_index() + path.spec_len() * (1
                + compress.compress_wires()),
            forall|vals: Map<u32, nat>|
                #![trigger final(self).satisfied(vals)]
                final(self).satisfied(vals) && valid_assignment(vals, F::modulus()) && all_binary(
                    evals(path.prefix_view(), vals, F::modulus()),
                ) ==> r.eval(vals) == merkle_root_value(
                    *compress,
                    leaf.eval(vals),
                    evals(path.prefix_view(), vals, F::modulus()),
                    expression_values(path.siblings_view(), vals),
                ),
    {
        proof {
            use_type_invariant(path);
            crate::field_arithmetic::lemma_extends_refl(*self);
        }
        let ghost p = F::modulus();
        let ghost start = *self;
        let ghost w = 1 + compress.compress_wires();
        let mut current = leaf.copy();
        let mut i: usize = 0;
        proof {
            assert forall|vals: Map<u32, nat>| #![trigger self.satisfied(vals)]
                self.satisfied(vals) && valid_assignment(vals, p) && all_binary(
                    evals(path.prefix@, vals, p),
                ) implies current.eval(vals) == merkle_root_value(
                *compress,
                leaf.eval(vals),
                evals(path.prefix@, vals, p).take(0),
                expression_values(path.siblings@, vals).take(0),
            ) by {
                assert(expression_values(path.siblings@, vals).take(0) =~= Seq::<nat>::empty());
            }
        }
        while i < path.siblings.len()
            invariant
                i <= path.siblings@.len(),
                path.prefix@.len() == path.siblings@.len(),
                path.spec_len() == path.siblings@.len(),
                w == 1 + compress.compress_wires(),
                p == F::modulus(),
                self.extends(start),
                self.next_index() <= start.next_index() + i * w,
                start.next_index() + path.siblings@.len() * w <= u32::MAX,
                forall|vals: Map<u32, nat>|
                    #![trigger self.satisfied(vals)]
                    self.satisfied(vals) && valid_assignment(vals, p) && all_binary(
                        evals(path.prefix@, vals, p),
                    ) ==> current.eval(vals) == merkle_root_value(
                        *compress,
                        leaf.eval(vals),
                        evals(path.prefix@, vals, p).take(i as int),
                        expression_values(path.siblings@, vals).take(i as int),
                    ),
            decreases path.siblings@.len() - i,
        {
            let ghost before = *self;
            proof {
                assert((i + 1) * w == i * w + w) by (nonlinear_arith);
                assert((i + 1) * w <= path.siblings@.len() * w) by (nonlinear_arith)
                    requires
                        i + 1 <= path.siblings@.len(),
                ;
            }
            let next = self.merkle_tree_step(&current, &path.siblings[i], &path.prefix.bits[i], compress);
            proof {
                lemma_extends_trans(*self, before, start);
                assert forall|vals: Map<u32, nat>| #![trigger self.satisfied(vals)]
                    self.satisfied(vals) && valid_assignment(vals, p) && all_binary(
                        evals(path.prefix@, vals, p),
                    ) implies next.eval(vals) == merkle_root_value(
                    *compress,
                    leaf.eval(vals),
                    evals(path.prefix@, vals, p).take(i + 1),
                    expression_values(path.siblings@, vals).take(i + 1),
                ) by {
                    lemma_satisfied_prefix(*self, before, vals);
                    let bits = evals(path.prefix@, vals, p);
                    let sibs = expression_values(path.siblings@, vals);
                    assert(bits.take(i + 1).drop_last() =~= bits.take(i as int));
                    assert(sibs.take(i + 1).drop_last() =~= sibs.take(i as int));
                    assert(bits[i as int] == path.prefix.bits@[i as int].eval(vals));
                    assert(bits[i as int] == 0 || bits[i as int] == 1);
                }
            }
            current = next;
            i += 1;
        }
        proof {
            assert forall|vals: Map<u32, nat>| #![trigger self.satisfied(vals)]
                self.satisfied(vals) && valid_assignment(vals, p) && all_binary(
                    evals(path.prefix@, vals, p),
                ) implies current.eval(vals) == merkle_root_value(
                *compress,
                leaf.eval(vals),
                evals(path.prefix@, vals, p),
                expression_values(path.siblings@, vals),
            ) by {
                assert(evals(path.prefix@, vals, p).take(i as int) =~= evals(path.prefix@, vals, p));
                assert(expression_values(path.siblings@, vals).take(i as int) =~= expression_values(
                    path.siblings@,
                    vals,
                ));
            }
        }
        current
    }

    /// Assert that `leaf` is a member of the Merkle tree with root `purported_root`, by the given
    /// path.
    pub fn assert_merkle_tree_membership<CF: CompressionFunction<F>>(
        &mut self,
        leaf: &Expression<F>,
        purported_root: &Expression<F>,
        path: &MerklePath<F>,
        compress: &CF,
    )
        requires
            old(self).has_room(path.spec_len() * (1 + compress.compress_wires())),
        ensures
            final(self).extends(*old(self)),
            final(self).next_index() <= old(self).next_index() + path.spec_len() * (1
                + compress.compress_wires()),
            forall|vals: Map<u32, nat>|
                #![trigger final(self).satisfied(vals)]
                final(self).satisfied(vals) && valid_assignment(vals, F::modulus()) && all_binary(
                    evals(path.prefix_view(), vals, F::modulus()),
                ) ==> purported_root.eval(vals) == merkle_root_value(
                    *compress,
                    leaf.eval(vals),
                    evals(path.prefix_view(), vals, F::modulus()),
                    expression_values(path.siblings_view(), vals),
                ),
    {
        let ghost start = *self;
        let computed_root = self.merkle_tree_root(leaf, path, compress);
        let ghost mid = *self;
        self.assert_equal(purported_root, &computed_root);
        proof {
            lemma_extends_trans(*self, mid, start);
            assert forall|vals: Map<u32, nat>| #![trigger self.satisfied(vals)]
                self.satisfied(vals) && valid_assignment(vals, F::modulus()) && all_binary(
                    evals(path.prefix_view(), vals, F::modulus()),
                ) implies purported_root.eval(vals) == merkle_root_value(
                *compress,
                leaf.eval(vals),
                evals(path.prefix_view(), vals, F::modulus()),
                expression_values(path.siblings_view(), vals),
            ) by {
                lemma_satisfied_prefix(*self, mid, vals);
            }
        }
    }
}

/// `(1 - b) n + b s` and `b n + (1 - b) s` pick `n` and `s` apart by a bit `b`.
proof fn lemma_bit_blend(b: nat, n: nat, s: nat, p: nat)
    requires
        1 < p,
        b == 0 || b == 1,
        n < p,
        s < p,
    ensures
        field_add(
            field_mul(field_sub(1, b, p), n, p),
            field_mul(b, s, p),
            p,
        ) == if b == 1 {
            s
        } else {
            n
        },
        field_add(
            field_mul(b, n, p),
            field_mul(field_sub(1, b, p), s, p),
            p,
        ) == if b == 1 {
            n
        } else {
            s
        },
{
    vstd::arithmetic::div_mod::lemma_small_mod(0, p);
    vstd::arithmetic::div_mod::lemma_small_mod(1, p);
    vstd::arithmetic::div_mod::lemma_small_mod(n, p);
    vstd::arithmetic::div_mod::lemma_small_mod(s, p);
    assert(0 * n == 0 && 0 * s == 0 && 1 * n == n && 1 * s == s);
}

impl<F: Field> GadgetBuilder<F> {
    /// Update an intermediate hash value in a Merkle trie, given the sibling at the current layer:
    /// the node goes on the right of its sibling when the prefix bit is 1.
    pub fn merkle_trie_step<CF: CompressionFunction<F>>(
        &mut self,
        node: &Expression<F>,
        sibling: &Expression<F>,
        prefix_bit: &BooleanExpression<F>,
        compress: &CF,
    ) -> (r: Expression<F>)
        requires
            old(self).has_room(4 + compress.compress_wires()),
        ensures
            final(self).extends(*old(self)),
            final(self).next_index() <= old(self).next_index() + 4 + compress.compress_wires(),
            forall|vals: Map<u32, nat>|
                #![trigger final(self).satisfied(vals)]
                final(self).satisfied(vals) && valid_assignment(vals, F::modulus()) && (
                prefix_bit.eval(vals) == 0 || prefix_bit.eval(vals) == 1) ==> r.eval(vals)
                    == merkle_step_value(*compress, node.eval(vals), sibling.eval(vals), prefix_bit.eval(vals)),
    {
        let ghost s0 = *self;
        let node_is_right = prefix_bit.expression();
        let one = Expression::one();
        let node_is_left = one.sub(node_is_right);
        let a = self.product(&node_is_left, node);
        let ghost s1 = *self;
        let b = self.product(node_is_right, sibling);
        let ghost s2 = *self;
        let left = a.add(&b);
        let c = self.product(node_is_right, node);
        let ghost s3 = *self;
        let d = self.product(&node_is_left, sibling);
        let ghost s4 = *self;
        let right = c.add(&d);
        let r = compress.compress(self, &left, &right);
        proof {
            lemma_extends_trans(*self, s4, s3);
            lemma_extends_trans(*self, s3, s2);
            lemma_extends_trans(*self, s2, s1);
            lemma_extends_trans(*self, s1, s0);
            assert forall|vals: Map<u32, nat>| #![trigger self.satisfied(vals)]
                self.satisfied(vals) && valid_assignment(vals, F::modulus()) && (prefix_bit.eval(vals)
                == 0 || prefix_bit.eval(vals) == 1) implies r.eval(vals) == merkle_step_value(
                *compress,
                node.eval(vals),
                sibling.eval(vals),
                prefix_bit.eval(vals),
            ) by {
                lemma_satisfied_prefix(*self, s4, vals);
                lemma_satisfied_prefix(*self, s3, vals);
                lemma_satisfied_prefix(*self, s2, vals);
                lemma_satisfied_prefix(*self, s1, vals);
                crate::gadget_builder::lemma_one_eval::<F>(one@, vals);
                lemma_eval_bound::<F>(node, vals);
                lemma_eval_bound::<F>(sibling, vals);
                lemma_bit_blend(prefix_bit.eval(vals), node.eval(vals), sibling.eval(vals), F::modulus());
            }
        }
        r
    }

    /// The Merkle root from a leaf value (0 or 1), a prefix and each sibling. Each bit of the
    /// prefix must be 0 or 1, as enforced elsewhere (e.g. by a split).
    pub fn merkle_trie_root<CF: CompressionFunction<F>>(
        &mut self,
        leaf: bool,
        path: &MerklePath<F>,
        compress: &CF,
    ) -> (r: Expression<F>)
        requires
            old(self).has_room(path.spec_len() * (4 + compress.compress_wires())),
        ensures
            final(self).extends(*old(self)),
            final(self).next_index() <= old(self).next_index() + path.spec_len() * (4
                + compress.compress_wires()),
            forall|vals: Map<u32, nat>|
                #![trigger final(self).satisfied(vals)]
                final(self).satisfied(vals) && valid_assignment(vals, F::modulus()) && all_binary(
                    evals(path.prefix_view(), vals, F::modulus()),
                ) ==> r.eval(vals) == merkle_root_value(
                    *compress,
                    if leaf {
                        1nat
                    } else {
                        0nat
                    },
                    evals(path.prefix_view(), vals, F::modulus()),
                    expression_values(path.siblings_view(), vals),
                ),
    {
        proof {
            use_type_invariant(path);
            crate::field_arithmetic::lemma_extends_refl(*self);
        }
        let ghost p = F::modulus();
        let ghost start = *self;
        let ghost w = 4 + compress.compress_wires();
        let ghost leaf_value: nat = if leaf {
            1
        } else {
            0
        };
        let mut current = Expression::from_bool(leaf);
        let mut i: usize = 0;
        proof {
            assert forall|vals: Map<u32, nat>| #![trigger self.satisfied(vals)]
                self.satisfied(vals) && valid_assignment(vals, p) && all_binary(
                    evals(path.prefix@, vals, p),
                ) implies current.eval(vals) == merkle_root_value(
                *compress,
                leaf_value,
                evals(path.prefix@, vals, p).take(0),
                expression_values(path.siblings@, vals).take(0),
            ) by {
                assert(expression_values(path.siblings@, vals).take(0) =~= Seq::<nat>::empty());
                crate::field_arithmetic::lemma_element_eval::<F>(current@, leaf_value, vals);
            }
        }
        while i < path.siblings.len()
            invariant
                i <= path.siblings@.len(),
                path.prefix@.len() == path.siblings@.len(),
                path.spec_len() == path.siblings@.len(),
                w == 4 + compress.compress_wires(),
                p == F::modulus(),
                self.extends(start),
                self.next_index() <= start.next_index() + i * w,
                start.next_index() + path.siblings@.len() * w <= u32::MAX,
                forall|vals: Map<u32, nat>|
                    #![trigger self.satisfied(vals)]
                    self.satisfied(vals) && valid_assignment(vals, p) && all_binary(
                        evals(path.prefix@, vals, p),
                    ) ==> current.eval(vals) == merkle_root_value(
                        *compress,
                        leaf_value,
                        evals(path.prefix@, vals, p).take(i as int),
                        expression_values(path.siblings@, vals).take(i as int),
                    ),
            decreases path.siblings@.len() - i,
        {
            let ghost before = *self;
            proof {
                assert((i + 1) * w == i * w + w) by (nonlinear_arith);
                assert((i + 1) * w <= path.siblings@.len() * w) by (nonlinear_arith)
                    requires
                        i + 1 <= path.siblings@.len(),
                ;
            }
            let next = self.merkle_trie_step(&current, &path.siblings[i], &path.prefix.bits[i], compress);
            proof {
                lemma_extends_trans(*self, before, start);
                assert forall|vals: Map<u32, nat>| #![trigger self.satisfied(vals)]
                    self.satisfied(vals) && valid_assignment(vals, p) && all_binary(
                        evals(path.prefix@, vals, p),
                    ) implies next.eval(vals) == merkle_root_value(
                    *compress,
                    leaf_value,
                    evals(path.prefix@, vals, p).take(i + 1),
                    expression_values(path.siblings@, vals).take(i + 1),
                ) by {
                    lemma_satisfied_prefix(*self, before, vals);
                    let bits = evals(path.prefix@, vals, p);
                    let sibs = expression_values(path.siblings@, vals);
                    assert(bits.take(i + 1).drop_last() =~= bits.take(i as int));
                    assert(sibs.take(i + 1).drop_last() =~= sibs.take(i as int));
                    assert(bits[i as int] == path.prefix.bits@[i as int].eval(vals));
                    assert(bits[i as int] == 0 || bits[i as int] == 1);
                }
            }
            current = next;
            i += 1;
        }
        proof {
            assert forall|vals: Map<u32, nat>| #![trigger self.satisfied(vals)]
                self.satisfied(vals) && valid_assignment(vals, p) && all_binary(
                    evals(path.prefix@, vals, p),
                ) implies current.eval(vals) == merkle_root_value(
                *compress,
                leaf_value,
                evals(path.prefix@, vals, p),
                expression_values(path.siblings@, vals),
            ) by {
                assert(evals(path.prefix@, vals, p).take(i as int) =~= evals(path.prefix@, vals, p));
                assert(expression_values(path.siblings@, vals).take(i as int) =~= expression_values(
                    path.siblings@,
                    vals,
                ));
            }
        }
        current
    }

    /// Assert that the prefix is present in the trie with the given root.
    pub fn merkle_trie_assert_membership<CF: CompressionFunction<F>>(
        &mut self,
        path: &MerklePath<F>,
        root: &Expression<F>,
        compress: &CF,
    )
        requires
            old(self).has_room(path.spec_len() * (4 + compress.compress_wires())),
        ensures
            final(self).extends(*old(self)),
            forall|vals: Map<u32, nat>|
                #![trigger final(self).satisfied(vals)]
                final(self).satisfied(vals) && valid_assignment(vals, F::modulus()) && all_binary(
                    evals(path.prefix_view(), vals, F::modulus()),
                ) ==> root.eval(vals) == merkle_root_value(
                    *compress,
                    1,
                    evals(path.prefix_view(), vals, F::modulus()),
                    expression_values(path.siblings_view(), vals),
                ),
    {
        let ghost start = *self;
        let root_with_prefix = self.merkle_trie_root(true, path, compress);
        let ghost mid = *self;
        self.assert_equal(&root_with_prefix, root);
        proof {
            lemma_extends_trans(*self, mid, start);
            assert forall|vals: Map<u32, nat>| #![trigger self.satisfied(vals)]
                self.satisfied(vals) && valid_assignment(vals, F::modulus()) && all_binary(
                    evals(path.prefix_view(), vals, F::modulus()),
                ) implies root.eval(vals) == merkle_root_value(
                *compress,
                1,
                evals(path.prefix_view(), vals, F::modulus()),
                expression_values(path.siblings_view(), vals),
            ) by {
                lemma_satisfied_prefix(*self, mid, vals);
            }
        }
    }

    /// Assert that the prefix is absent from the trie with the given root.
    pub fn merkle_trie_assert_nonmembership<CF: CompressionFunction<F>>(
        &mut self,
        path: &MerklePath<F>,
        root: &Expression<F>,
        compress: &CF,
    )
        requires
            old(self).has_room(path.spec_len() * (4 + compress.compress_wires())),
        ensures
            final(self).extends(*old(self)),
            forall|vals: Map<u32, nat>|
                #![trigger final(self).satisfied(vals)]
                final(self).satisfied(vals) && valid_assignment(vals, F::modulus()) && all_binary(
                    evals(path.prefix_view(), vals, F::modulus()),
                ) ==> root.eval(vals) == merkle_root_value(
                    *compress,
                    0,
                    evals(path.prefix_view(), vals, F::modulus()),
                    expression_values(path.siblings_view(), vals),
                ),
    {
        let ghost start = *self;
        let root_without_prefix = self.merkle_trie_root(false, path, compress);
        let ghost mid = *self;
        self.assert_equal(&root_without_prefix, root);
        proof {
            lemma_extends_trans(*self, mid, start);
            assert forall|vals: Map<u32, nat>| #![trigger self.satisfied(vals)]
                self.satisfied(vals) && valid_assignment(vals, F::modulus()) && all_binary(
                    evals(path.prefix_view(), vals, F::modulus()),
                ) implies root.eval(vals) == merkle_root_value(
                *compress,
                0,
                evals(path.prefix_view(), vals, F::modulus()),
                expression_values(path.siblings_view(), vals),
            ) by {
                lemma_satisfied_prefix(*self, mid, vals);
            }
        }
    }

    /// The roots before and after the prefix is inserted: `(without, with)`.
    pub fn merkle_trie_insert<CF: CompressionFunction<F>>(
        &mut self,
        path: &MerklePath<F>,
        compress: &CF,
    ) -> (r: (Expression<F>, Expression<F>))
        requires
            old(self).has_room(2 * (path.spec_len() * (4 + compress.compress_wires()))),
        ensures
            final(self).extends(*old(self)),
            final(self).next_index() <= old(self).next_index() + 2 * (path.spec_len() * (4
                + compress.compress_wires())),
            forall|vals: Map<u32, nat>|
                #![trigger final(self).satisfied(vals)]
                final(self).satisfied(vals) && valid_assignment(vals, F::modulus()) && all_binary(
                    evals(path.prefix_view(), vals, F::modulus()),
                ) ==> {
                    let bits = evals(path.prefix_view(), vals, F::modulus());
                    let sibs = expression_values(path.siblings_view(), vals);
                    &&& r.0.eval(vals) == merkle_root_value(*compress, 0, bits, sibs)
                    &&& r.1.eval(vals) == merkle_root_value(*compress, 1, bits, sibs)
                },
    {
        let ghost start = *self;
        let root_without_prefix = self.merkle_trie_root(false, path, compress);
        let ghost mid = *self;
        let root_with_prefix = self.merkle_trie_root(true, path, compress);
        proof {
            lemma_extends_trans(*self, mid, start);
            assert forall|vals: Map<u32, nat>| #![trigger self.satisfied(vals)]
                self.satisfied(vals) && valid_assignment(vals, F::modulus()) && all_binary(
                    evals(path.prefix_view(), vals, F::modulus()),
                ) implies {
                let bits = evals(path.prefix_view(), vals, F::modulus());
                let sibs = expression_values(path.siblings_view(), vals);
                &&& root_without_prefix.eval(vals) == merkle_root_value(*compress, 0, bits, sibs)
                &&& root_with_prefix.eval(vals) == merkle_root_value(*compress, 1, bits, sibs)
            } by {
                lemma_satisfied_prefix(*self, mid, vals);
            }
        }
        (root_without_prefix, root_with_prefix)
    }

    /// The roots before and after the prefix is deleted: `(with, without)`.
    pub fn merkle_trie_delete<CF: CompressionFunction<F>>(
        &mut self,
        path: &MerklePath<F>,
        compress: &CF,
    ) -> (r: (Expression<F>, Expression<F>))
        requires
            old(self).has_room(2 * (path.spec_len() * (4 + compress.compress_wires()))),
        ensures
            final(self).extends(*old(self)),
            final(self).next_index() <= old(self).next_index() + 2 * (path.spec_len() * (4
                + compress.compress_wires())),
            forall|vals: Map<u32, nat>|
                #![trigger final(self).satisfied(vals)]
                final(self).satisfied(vals) && valid_assignment(vals, F::modulus()) && all_binary(
                    evals(path.prefix_view(), vals, F::modulus()),
                ) ==> {
                    let bits = evals(path.prefix_view(), vals, F::modulus());
                    let sibs = expression_values(path.siblings_view(), vals);
                    &&& r.0.eval(vals) == merkle_root_value(*compress, 1, bits, sibs)
                    &&& r.1.eval(vals) == merkle_root_value(*compress, 0, bits, sibs)
                },
    {
        let (without, with) = self.merkle_trie_insert(path, compress);
        (with, without)
    }
}

} // verus!
