//! Gadgets of the Mir protocol: records and their commitments, transactions, and blocks that
//! update the trie of record commitments.

use vstd::prelude::*;

use crate::binary_expression::evals;
use crate::expression::Expression;
use crate::field::Field;
use crate::gadget_builder::{
    lemma_extends_trans, lemma_satisfied_prefix, valid_assignment, GadgetBuilder,
};
use crate::gadget_traits::{expression_values, CompressionFunction, HashFunction};
use crate::merkle_trees::{all_binary, merkle_root_value, MerklePath};

verus! {

/// A record, as field element blocks.
pub struct Record<F: Field> {
    pub birth_predicate: Expression<F>,
    pub death_predicate: Expression<F>,
    pub mutation_predicate: Expression<F>,
    pub log_predicate: Expression<F>,
    pub payload: Expression<F>,
}

/// The blocks of a record under an assignment.
pub open spec fn record_values<F: Field>(record: Record<F>, vals: Map<u32, nat>) -> Seq<nat> {
    seq![
        record.birth_predicate.eval(vals),
        record.death_predicate.eval(vals),
        record.mutation_predicate.eval(vals),
        record.log_predicate.eval(vals),
        record.payload.eval(vals),
    ]
}

impl<F: Field> Record<F> {
    /// This record as a vector of field element blocks.
    pub fn serialize(&self) -> (r: Vec<Expression<F>>)
        ensures
            r@.len() == 5,
            r@[0]@ == self.birth_predicate@,
            r@[1]@ == self.death_predicate@,
            r@[2]@ == self.mutation_predicate@,
            r@[3]@ == self.log_predicate@,
            r@[4]@ == self.payload@,
    {
        let mut r = Vec::new();
        r.push(self.birth_predicate.copy());
        r.push(self.death_predicate.copy());
        r.push(self.mutation_predicate.copy());
        r.push(self.log_predicate.copy());
        r.push(self.payload.copy());
        r
    }
}

/// A record with the randomness that opens its commitment.
pub struct RecordOpening<F: Field> {
    pub record: Record<F>,
    pub opening: Expression<F>,
}

/// The commitment to a record: its hash, compressed with the opening.
pub open spec fn commitment_value<F: Field, H: HashFunction<F>, CF: CompressionFunction<F>>(
    hash: H,
    compress: CF,
    record_opening: RecordOpening<F>,
    vals: Map<u32, nat>,
) -> nat {
    compress.compress_value(
        hash.hash_value(record_values(record_opening.record, vals)),
        record_opening.opening.eval(vals),
    )
}

/// The wires that one record commitment creates, at most.
pub open spec fn commitment_wires<F: Field, H: HashFunction<F>, CF: CompressionFunction<F>>(
    hash: H,
    compress: CF,
) -> nat {
    hash.hash_wires(5) + compress.compress_wires()
}

/// The hash of a record's blocks.
pub fn record_hash<F: Field, H: HashFunction<F>>(
    builder: &mut GadgetBuilder<F>,
    record: &Record<F>,
    hash: &H,
) -> (r: Expression<F>)
    requires
        hash.accepts_blocks(5),
        old(builder).has_room(hash.hash_wires(5)),
    ensures
        final(builder).extends(*old(builder)),
        final(builder).next_index() <= old(builder).next_index() + hash.hash_wires(5),
        forall|vals: Map<u32, nat>|
            #![trigger final(builder).satisfied(vals)]
            final(builder).satisfied(vals) && valid_assignment(vals, F::modulus()) ==> r.eval(vals)
                == hash.hash_value(record_values(*record, vals)),
{
    let blocks = record.serialize();
    let r = hash.hash(builder, blocks.as_slice());
    proof {
        assert forall|vals: Map<u32, nat>| #![trigger builder.satisfied(vals)]
            builder.satisfied(vals) && valid_assignment(vals, F::modulus()) implies r.eval(vals)
            == hash.hash_value(record_values(*record, vals)) by {
            assert(expression_values(blocks@, vals) =~= record_values(*record, vals));
        }
    }
    r
}

/// The commitment to a record: its hash, compressed with the opening.
pub fn record_commitment<F: Field, H: HashFunction<F>, CF: CompressionFunction<F>>(
    builder: &mut GadgetBuilder<F>,
    record_opening: &RecordOpening<F>,
    hash: &H,
    compress: &CF,
) -> (r: Expression<F>)
    requires
        hash.accepts_blocks(5),
        old(builder).has_room(commitment_wires(*hash, *compress)),
    ensures
        final(builder).extends(*old(builder)),
        final(builder).next_index() <= old(builder).next_index() + commitment_wires(
            *hash,
            *compress,
        ),
        forall|vals: Map<u32, nat>|
            #![trigger final(builder).satisfied(vals)]
            final(builder).satisfied(vals) && valid_assignment(vals, F::modulus()) ==> r.eval(vals)
                == commitment_value(*hash, *compress, *record_opening, vals),
{
    let ghost start = *builder;
    let record_digest = record_hash(builder, &record_opening.record, hash);
    let ghost mid = *builder;
    let r = compress.compress(builder, &record_digest, &record_opening.opening);
    proof {
        lemma_extends_trans(*builder, mid, start);
        assert forall|vals: Map<u32, nat>| #![trigger builder.satisfied(vals)]
            builder.satisfied(vals) && valid_assignment(vals, F::modulus()) implies r.eval(vals)
            == commitment_value(*hash, *compress, *record_opening, vals) by {
            lemma_satisfied_prefix(*builder, mid, vals);
        }
    }
    r
}

/// A record that a transaction creates.
pub struct Birth<F: Field> {
    pub record_opening: RecordOpening<F>,
}

/// A record that a transaction consumes.
pub struct Death<F: Field> {
    pub record_opening: RecordOpening<F>,
}

/// A record that a transaction replaces.
pub struct Mutation<F: Field> {
    pub old_record_opening: RecordOpening<F>,
    pub new_record_opening: RecordOpening<F>,
}

/// The records that a transaction touches.
pub struct TransactionInputs<F: Field> {
    pub births: Vec<Birth<F>>,
    pub deaths: Vec<Death<F>>,
    pub mutations: Vec<Mutation<F>>,
}

/// The record commitments that a transaction adds and removes.
pub struct TransactionOutputs<F: Field> {
    pub record_commitments_added: Vec<Expression<F>>,
    pub record_commitments_removed: Vec<Expression<F>>,
}

/// The number of record commitments a transaction computes.
pub open spec fn transaction_commitments<F: Field>(inputs: TransactionInputs<F>) -> nat {
    inputs.births@.len() + inputs.deaths@.len() + 2 * inputs.mutations@.len()
}

/// The commitments of a transaction: the births' and then the mutations' new records are added;
/// the deaths' and then the mutations' old records are removed.
pub fn mir_transaction<F: Field, H: HashFunction<F>, CF: CompressionFunction<F>>(
    builder: &mut GadgetBuilder<F>,
    inputs: &TransactionInputs<F>,
    hash: &H,
    compress: &CF,
) -> (r: TransactionOutputs<F>)
    requires
        hash.accepts_blocks(5),
        old(builder).has_room(transaction_commitments(*inputs) * commitment_wires(*hash, *compress)),
    ensures
        final(builder).extends(*old(builder)),
        final(builder).next_index() <= old(builder).next_index() + transaction_commitments(*inputs)
            * commitment_wires(*hash, *compress),
        r.record_commitments_added@.len() == inputs.births@.len() + inputs.mutations@.len(),
        r.record_commitments_removed@.len() == inputs.deaths@.len() + inputs.mutations@.len(),
        forall|vals: Map<u32, nat>|
            #![trigger final(builder).satisfied(vals)]
            final(builder).satisfied(vals) && valid_assignment(vals, F::modulus()) ==> {
                &&& forall|i: int|
                    0 <= i < inputs.births@.len() ==> #[trigger] r.record_commitments_added@[i].eval(
                        vals,
                    ) == commitment_value(*hash, *compress, inputs.births@[i].record_opening, vals)
                &&& forall|j: int|
                    0 <= j < inputs.mutations@.len() ==> #[trigger] r.record_commitments_added@[
                    inputs.births@.len() + j].eval(vals) == commitment_value(
                        *hash,
                        *compress,
                        inputs.mutations@[j].new_record_opening,
                        vals,
                    )
                &&& forall|i: int|
                    0 <= i < inputs.deaths@.len() ==> #[trigger] r.record_commitments_removed@[i].eval(
                        vals,
                    ) == commitment_value(*hash, *compress, inputs.deaths@[i].record_opening, vals)
                &&& forall|j: int|
                    0 <= j < inputs.mutations@.len() ==> #[trigger] r.record_commitments_removed@[
                    inputs.deaths@.len() + j].eval(vals) == commitment_value(
                        *hash,
                        *compress,
                        inputs.mutations@[j].old_record_opening,
                        vals,
                    )
            },
{
    let ghost start = *builder;
    let ghost w = commitment_wires(*hash, *compress);
    let ghost total = transaction_commitments(*inputs);
    let ghost nb = inputs.births@.len();
    let ghost nd = inputs.deaths@.len();
    let mut added: Vec<Expression<F>> = Vec::new();
    let mut removed: Vec<Expression<F>> = Vec::new();
    let ghost mut done: nat = 0;
    proof {
        crate::field_arithmetic::lemma_extends_refl(*builder);
    }
    let mut i: usize = 0;
    while i < inputs.births.len()
        invariant
            i <= inputs.births@.len(),
            hash.accepts_blocks(5),
            w == commitment_wires(*hash, *compress),
            total == transaction_commitments(*inputs),
            done == i,
            added@.len() == i,
            removed@.len() == 0,
            builder.extends(start),
            builder.next_index() <= start.next_index() + done * w,
            start.next_index() + total * w <= u32::MAX,
            forall|vals: Map<u32, nat>|
                #![trigger builder.satisfied(vals)]
                builder.satisfied(vals) && valid_assignment(vals, F::modulus()) ==> forall|k: int|
                    0 <= k < i ==> #[trigger] added@[k].eval(vals) == commitment_value(
                        *hash,
                        *compress,
                        inputs.births@[k].record_opening,
                        vals,
                    ),
        decreases inputs.births@.len() - i,
    {
        let ghost before = *builder;
        proof {
            assert((done + 1) * w == done * w + w) by (nonlinear_arith);
            assert((done + 1) * w <= total * w) by (nonlinear_arith)
                requires
                    done + 1 <= total,
            ;
        }
        let c = record_commitment(builder, &inputs.births[i].record_opening, hash, compress);
        let ghost old_added = added@;
        added.push(c);
        proof {
            lemma_extends_trans(*builder, before, start);
            assert forall|vals: Map<u32, nat>| #![trigger builder.satisfied(vals)]
                builder.satisfied(vals) && valid_assignment(vals, F::modulus()) implies forall|k: int|
                0 <= k < i + 1 ==> #[trigger] added@[k].eval(vals) == commitment_value(
                    *hash,
                    *compress,
                    inputs.births@[k].record_opening,
                    vals,
                ) by {
                lemma_satisfied_prefix(*builder, before, vals);
                assert forall|k: int| 0 <= k < i + 1 implies #[trigger] added@[k].eval(vals)
                    == commitment_value(*hash, *compress, inputs.births@[k].record_opening, vals) by {
                    if k < i {
                        assert(added@[k] == old_added[k]);
                    }
                }
            }
        }
        proof {
            done = done + 1;
        }
        i += 1;
    }
    let mut i: usize = 0;
    while i < inputs.deaths.len()
        invariant
            i <= inputs.deaths@.len(),
            hash.accepts_blocks(5),
            w == commitment_wires(*hash, *compress),
            total == transaction_commitments(*inputs),
            nb == inputs.births@.len(),
            nd == inputs.deaths@.len(),
            done == nb + i,
            added@.len() == nb,
            removed@.len() == i,
            builder.extends(start),
            builder.next_index() <= start.next_index() + done * w,
            start.next_index() + total * w <= u32::MAX,
            forall|vals: Map<u32, nat>|
                #![trigger builder.satisfied(vals)]
                builder.satisfied(vals) && valid_assignment(vals, F::modulus()) ==> {
                    &&& forall|k: int|
                        0 <= k < nb ==> #[trigger] added@[k].eval(vals) == commitment_value(
                            *hash,
                            *compress,
                            inputs.births@[k].record_opening,
                            vals,
                        )
                    &&& forall|k: int|
                        0 <= k < i ==> #[trigger] removed@[k].eval(vals) == commitment_value(
                            *hash,
                            *compress,
                            inputs.deaths@[k].record_opening,
                            vals,
                        )
                },
        decreases inputs.deaths@.len() - i,
    {
        let ghost before = *builder;
        proof {
            assert((done + 1) * w == done * w + w) by (nonlinear_arith);
            assert((done + 1) * w <= total * w) by (nonlinear_arith)
                requires
                    done + 1 <= total,
            ;
        }
        let c = record_commitment(builder, &inputs.deaths[i].record_opening, hash, compress);
        let ghost old_removed = removed@;
        removed.push(c);
        proof {
            lemma_extends_trans(*builder, before, start);
            assert forall|vals: Map<u32, nat>| #![trigger builder.satisfied(vals)]
                builder.satisfied(vals) && valid_assignment(vals, F::modulus()) implies {
                &&& forall|k: int|
                    0 <= k < nb ==> #[trigger] added@[k].eval(vals) == commitment_value(
                        *hash,
                        *compress,
                        inputs.births@[k].record_opening,
                        vals,
                    )
                &&& forall|k: int|
                    0 <= k < i + 1 ==> #[trigger] removed@[k].eval(vals) == commitment_value(
                        *hash,
                        *compress,
                        inputs.deaths@[k].record_opening,
                        vals,
                    )
            } by {
                lemma_satisfied_prefix(*builder, before, vals);
                assert forall|k: int| 0 <= k < i + 1 implies #[trigger] removed@[k].eval(vals)
                    == commitment_value(*hash, *compress, inputs.deaths@[k].record_opening, vals) by {
                    if k < i {
                        assert(removed@[k] == old_removed[k]);
                    }
                }
            }
        }
        proof {
            done = done + 1;
        }
        i += 1;
    }
    let mut j: usize = 0;
    while j < inputs.mutations.len()
        invariant
            j <= inputs.mutations@.len(),
            hash.accepts_blocks(5),
            w == commitment_wires(*hash, *compress),
            total == transaction_commitments(*inputs),
            nb == inputs.births@.len(),
            nd == inputs.deaths@.len(),
            done == nb + nd + 2 * j,
            added@.len() == nb + j,
            removed@.len() == nd + j,
            builder.extends(start),
            builder.next_index() <= start.next_index() + done * w,
            start.next_index() + total * w <= u32::MAX,
            forall|vals: Map<u32, nat>|
                #![trigger builder.satisfied(vals)]
                builder.satisfied(vals) && valid_assignment(vals, F::modulus()) ==> {
                    &&& forall|k: int|
                        0 <= k < nb ==> #[trigger] added@[k].eval(vals) == commitment_value(
                            *hash,
                            *compress,
                            inputs.births@[k].record_opening,
                            vals,
                        )
                    &&& forall|k: int|
                        0 <= k < j ==> #[trigger] added@[nb + k].eval(vals) == commitment_value(
                            *hash,
                            *compress,
                            inputs.mutations@[k].new_record_opening,
                            vals,
                        )
                    &&& forall|k: int|
                        0 <= k < nd ==> #[trigger] removed@[k].eval(vals) == commitment_value(
                            *hash,
                            *compress,
                            inputs.deaths@[k].record_opening,
                            vals,
                        )
                    &&& forall|k: int|
                        0 <= k < j ==> #[trigger] removed@[nd + k].eval(vals) == commitment_value(
                            *hash,
                            *compress,
                            inputs.mutations@[k].old_record_opening,
                            vals,
                        )
                },
        decreases inputs.mutations@.len() - j,
    {
        let ghost before = *builder;
        proof {
            assert((done + 1) * w == done * w + w) by (nonlinear_arith);
            assert((done + 2) * w == done * w + w + w) by (nonlinear_arith);
            assert((done + 2) * w <= total * w) by (nonlinear_arith)
                requires
                    done + 2 <= total,
            ;
        }
        let old_c = record_commitment(builder, &inputs.mutations[j].old_record_opening, hash, compress);
        let ghost mid = *builder;
        let new_c = record_commitment(builder, &inputs.mutations[j].new_record_opening, hash, compress);
        let ghost old_added = added@;
        let ghost old_removed = removed@;
        removed.push(old_c);
        added.push(new_c);
        proof {
            lemma_extends_trans(*builder, mid, before);
            lemma_extends_trans(*builder, before, start);
            assert forall|vals: Map<u32, nat>| #![trigger builder.satisfied(vals)]
                builder.satisfied(vals) && valid_assignment(vals, F::modulus()) implies {
                &&& forall|k: int|
                    0 <= k < nb ==> #[trigger] added@[k].eval(vals) == commitment_value(
                        *hash,
                        *compress,
                        inputs.births@[k].record_opening,
                        vals,
                    )
                &&& forall|k: int|
                    0 <= k < j + 1 ==> #[trigger] added@[nb + k].eval(vals) == commitment_value(
                        *hash,
                        *compress,
                        inputs.mutations@[k].new_record_opening,
                        vals,
                    )
                &&& forall|k: int|
                    0 <= k < nd ==> #[trigger] removed@[k].eval(vals) == commitment_value(
                        *hash,
                        *compress,
                        inputs.deaths@[k].record_opening,
                        vals,
                    )
                &&& forall|k: int|
                    0 <= k < j + 1 ==> #[trigger] removed@[nd + k].eval(vals) == commitment_value(
                        *hash,
                        *compress,
                        inputs.mutations@[k].old_record_opening,
                        vals,
                    )
            } by {
                lemma_satisfied_prefix(*builder, before, vals);
                lemma_satisfied_prefix(*builder, mid, vals);
                assert forall|k: int| 0 <= k < nb implies #[trigger] added@[k].eval(vals)
                    == commitment_value(*hash, *compress, inputs.births@[k].record_opening, vals) by {
                    assert(added@[k] == old_added[k]);
                }
                assert forall|k: int| 0 <= k < j + 1 implies #[trigger] added@[nb + k].eval(vals)
                    == commitment_value(
                    *hash,
                    *compress,
                    inputs.mutations@[k].new_record_opening,
                    vals,
                ) by {
                    if k < j {
                        assert(added@[nb + k] == old_added[nb + k]);
                    }
                }
                assert forall|k: int| 0 <= k < nd implies #[trigger] removed@[k].eval(vals)
                    == commitment_value(*hash, *compress, inputs.deaths@[k].record_opening, vals) by {
                    assert(removed@[k] == old_removed[k]);
                }
                assert forall|k: int| 0 <= k < j + 1 implies #[trigger] removed@[nd + k].eval(vals)
                    == commitment_value(
                    *hash,
                    *compress,
                    inputs.mutations@[k].old_record_opening,
                    vals,
                ) by {
                    if k < j {
                        assert(removed@[nd + k] == old_removed[nd + k]);
                    }
                }
            }
        }
        proof {
            done = done + 2;
        }
        j += 1;
    }
    TransactionOutputs { record_commitments_added: added, record_commitments_removed: removed }
}

/// The turn bits and the sibling values of a Merkle path under an assignment.
pub open spec fn path_values<F: Field>(path: MerklePath<F>, vals: Map<u32, nat>) -> (Seq<nat>, Seq<
    nat,
>) {
    (evals(path.prefix_view(), vals, F::modulus()), expression_values(path.siblings_view(), vals))
}

/// Every turn of every path is 0 or 1.
pub open spec fn paths_binary<F: Field>(paths: Seq<MerklePath<F>>, vals: Map<u32, nat>) -> bool {
    forall|i: int| 0 <= i < paths.len() ==> all_binary(#[trigger] path_values(paths[i], vals).0)
}

/// The wires that inserting (or deleting) along each path creates, at most.
pub open spec fn trie_update_wires<F: Field>(paths: Seq<MerklePath<F>>, compress_wires: nat) -> nat
    decreases paths.len(),
{
    if paths.len() == 0 {
        0
    } else {
        trie_update_wires(paths.drop_last(), compress_wires) + 2 * (paths.last().spec_len() * (4
            + compress_wires))
    }
}

/// Updates a trie root along each path in turn, each time from the root where the path's prefix
/// is absent (`before`) to the root where it is present (`after`), or the reverse; `None` when a
/// path does not start from the root that the previous update reached.
pub open spec fn trie_update_chain<F: Field, CF: CompressionFunction<F>>(
    compress: CF,
    start: nat,
    paths: Seq<MerklePath<F>>,
    vals: Map<u32, nat>,
    insert: bool,
) -> Option<nat>
    decreases paths.len(),
{
    if paths.len() == 0 {
        Some(start)
    } else {
        match trie_update_chain(compress, start, paths.drop_last(), vals, insert) {
            Some(root) => {
                let (bits, siblings) = path_values(paths.last(), vals);
                let without = merkle_root_value(compress, 0, bits, siblings);
                let with = merkle_root_value(compress, 1, bits, siblings);
                if insert && without == root {
                    Some(with)
                } else if !insert && with == root {
                    Some(without)
                } else {
                    None
                }
            },
            None => None,
        }
    }
}

proof fn lemma_update_wires_prefix<F: Field>(paths: Seq<MerklePath<F>>, cw: nat, i: int)
    requires
        0 <= i <= paths.len(),
    ensures
        trie_update_wires(paths.take(i), cw) <= trie_update_wires(paths, cw),
    decreases paths.len(),
{
    if i < paths.len() {
        assert(paths.drop_last().take(i) =~= paths.take(i));
        lemma_update_wires_prefix(paths.drop_last(), cw, i);
    } else {
        assert(paths.take(i) =~= paths);
    }
}

/// The state of the chain that a block validates.
pub struct BlockInputs<F: Field> {
    /// The Merkle root of the record commitment set.
    pub records_root: Expression<F>,
    /// A list of record hashes corresponding to validator accounts.
    pub validator_list: Vec<Expression<F>>,
    pub old_records_root: Expression<F>,
    pub old_active_validators_root: Expression<F>,
    pub old_next_validators_root: Expression<F>,
    pub record_commitments_removed: Vec<MerklePath<F>>,
    pub record_commitments_added: Vec<MerklePath<F>>,
}

/// The state of the chain after a block.
pub struct BlockOutputs<F: Field> {
    pub new_records_root: Expression<F>,
    pub new_active_validators_root: Expression<F>,
    pub new_next_validators_root: Expression<F>,
}

/// Validates a block, and returns the updated state: the record commitment trie goes from the old
/// root through each insertion and then each deletion. (The validator roots are zero.)
pub fn mir_block<F: Field, CF: CompressionFunction<F>>(
    builder: &mut GadgetBuilder<F>,
    inputs: &BlockInputs<F>,
    compress: &CF,
) -> (r: BlockOutputs<F>)
    requires
        old(builder).has_room(
            trie_update_wires(inputs.record_commitments_added@, compress.compress_wires())
                + trie_update_wires(inputs.record_commitments_removed@, compress.compress_wires()),
        ),
    ensures
        final(builder).extends(*old(builder)),
        r.new_active_validators_root@ == Seq::<(u32, nat)>::empty(),
        r.new_next_validators_root@ == Seq::<(u32, nat)>::empty(),
        forall|vals: Map<u32, nat>|
            #![trigger final(builder).satisfied(vals)]
            final(builder).satisfied(vals) && valid_assignment(vals, F::modulus()) && paths_binary(
                inputs.record_commitments_added@,
                vals,
            ) && paths_binary(inputs.record_commitments_removed@, vals) ==> {
                &&& trie_update_chain(
                    *compress,
                    inputs.old_records_root.eval(vals),
                    inputs.record_commitments_added@,
                    vals,
                    true,
                ) matches Some(mid)
                &&& trie_update_chain(
                    *compress,
                    mid,
                    inputs.record_commitments_removed@,
                    vals,
                    false,
                ) == Some(r.new_records_root.eval(vals))
            },
{
    let ghost start = *builder;
    let ghost cw = compress.compress_wires();
    let ghost added = inputs.record_commitments_added@;
    let ghost removed = inputs.record_commitments_removed@;
    let ghost budget = trie_update_wires(added, cw) + trie_update_wires(removed, cw);
    let mut records_root = inputs.old_records_root.copy();
    proof {
        crate::field_arithmetic::lemma_extends_refl(*builder);
        assert(added.take(0) =~= Seq::<MerklePath<F>>::empty());
    }
    let mut i: usize = 0;
    while i < inputs.record_commitments_added.len()
        invariant
            i <= added.len(),
            added == inputs.record_commitments_added@,
            cw == compress.compress_wires(),
            budget == trie_update_wires(added, cw) + trie_update_wires(removed, cw),
            builder.extends(start),
            builder.next_index() <= start.next_index() + trie_update_wires(added.take(i as int), cw),
            start.next_index() + budget <= u32::MAX,
            forall|vals: Map<u32, nat>|
                #![trigger builder.satisfied(vals)]
                builder.satisfied(vals) && valid_assignment(vals, F::modulus()) && paths_binary(
                    added,
                    vals,
                ) ==> trie_update_chain(
                    *compress,
                    inputs.old_records_root.eval(vals),
                    added.take(i as int),
                    vals,
                    true,
                ) == Some(records_root.eval(vals)),
        decreases added.len() - i,
    {
        let ghost before = *builder;
        let ghost path = added[i as int];
        proof {
            assert(added.take(i + 1).drop_last() =~= added.take(i as int));
            lemma_update_wires_prefix(added, cw, i + 1);
        }
        let (root_before, root_after) = builder.merkle_trie_insert(
            &inputs.record_commitments_added[i],
            compress,
        );
        let ghost mid = *builder;
        builder.assert_equal(&records_root, &root_before);
        proof {
            lemma_extends_trans(*builder, mid, before);
            lemma_extends_trans(*builder, before, start);
            assert forall|vals: Map<u32, nat>| #![trigger builder.satisfied(vals)]
                builder.satisfied(vals) && valid_assignment(vals, F::modulus()) && paths_binary(
                    added,
                    vals,
                ) implies trie_update_chain(
                *compress,
                inputs.old_records_root.eval(vals),
                added.take(i + 1),
                vals,
                true,
            ) == Some(root_after.eval(vals)) by {
                lemma_satisfied_prefix(*builder, mid, vals);
                lemma_satisfied_prefix(*builder, before, vals);
                assert(all_binary(path_values(added[i as int], vals).0));
            }
        }
        records_root = root_after;
        i += 1;
    }
    let ghost after_inserts = *builder;
    proof {
        assert(added.take(added.len() as int) =~= added);
        assert(removed.take(0) =~= Seq::<MerklePath<F>>::empty());
    }
    let ghost mid_root = records_root;
    let mut j: usize = 0;
    while j < inputs.record_commitments_removed.len()
        invariant
            j <= removed.len(),
            removed == inputs.record_commitments_removed@,
            added == inputs.record_commitments_added@,
            cw == compress.compress_wires(),
            budget == trie_update_wires(added, cw) + trie_update_wires(removed, cw),
            builder.extends(after_inserts),
            after_inserts.extends(start),
            after_inserts.next_index() <= start.next_index() + trie_update_wires(added, cw),
            builder.next_index() <= after_inserts.next_index() + trie_update_wires(
                removed.take(j as int),
                cw,
            ),
            start.next_index() + budget <= u32::MAX,
            forall|vals: Map<u32, nat>|
                #![trigger after_inserts.satisfied(vals)]
                after_inserts.satisfied(vals) && valid_assignment(vals, F::modulus()) && paths_binary(
                    added,
                    vals,
                ) ==> trie_update_chain(
                    *compress,
                    inputs.old_records_root.eval(vals),
                    added,
                    vals,
                    true,
                ) == Some(mid_root.eval(vals)),
            forall|vals: Map<u32, nat>|
                #![trigger builder.satisfied(vals)]
                builder.satisfied(vals) && valid_assignment(vals, F::modulus()) && paths_binary(
                    removed,
                    vals,
                ) ==> trie_update_chain(
                    *compress,
                    mid_root.eval(vals),
                    removed.take(j as int),
                    vals,
                    false,
                ) == Some(records_root.eval(vals)),
        decreases removed.len() - j,
    {
        let ghost before = *builder;
        proof {
            assert(removed.take(j + 1).drop_last() =~= removed.take(j as int));
            lemma_update_wires_prefix(removed, cw, j + 1);
        }
        let (root_before, root_after) = builder.merkle_trie_delete(
            &inputs.record_commitments_removed[j],
            compress,
        );
        let ghost mid = *builder;
        builder.assert_equal(&records_root, &root_before);
        proof {
            lemma_extends_trans(*builder, mid, before);
            lemma_extends_trans(*builder, before, after_inserts);
            assert forall|vals: Map<u32, nat>| #![trigger builder.satisfied(vals)]
                builder.satisfied(vals) && valid_assignment(vals, F::modulus()) && paths_binary(
                    removed,
                    vals,
                ) implies trie_update_chain(
                *compress,
                mid_root.eval(vals),
                removed.take(j + 1),
                vals,
                false,
            ) == Some(root_after.eval(vals)) by {
                lemma_satisfied_prefix(*builder, mid, vals);
                lemma_satisfied_prefix(*builder, before, vals);
                assert(all_binary(path_values(removed[j as int], vals).0));
            }
        }
        records_root = root_after;
        j += 1;
    }
    proof {
        assert(removed.take(removed.len() as int) =~= removed);
        lemma_extends_trans(*builder, after_inserts, start);
        assert forall|vals: Map<u32, nat>| #![trigger builder.satisfied(vals)]
            builder.satisfied(vals) && valid_assignment(vals, F::modulus()) && paths_binary(
                added,
                vals,
            ) && paths_binary(removed, vals) implies {
            &&& trie_update_chain(
                *compress,
                inputs.old_records_root.eval(vals),
                added,
                vals,
                true,
            ) matches Some(mid)
            &&& trie_update_chain(*compress, mid, removed, vals, false) == Some(records_root.eval(vals))
        } by {
            lemma_satisfied_prefix(*builder, after_inserts, vals);
        }
    }
    BlockOutputs {
        new_records_root: records_root,
        new_active_validators_root: Expression::zero(),
        new_next_validators_root: Expression::zero(),
    }
}

} // verus!
