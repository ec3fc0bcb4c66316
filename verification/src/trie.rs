//! A Merkle trie holding a set of fixed-length bit strings.

use vstd::prelude::*;

use crate::field::{Element, Field};

verus! {

/// A Merkle trie for storing a set of binary values. Each instance has a fixed height, `bits`; all
/// inserted values must have that exact bit length.
#[derive(Debug)]
pub struct Trie {
    bits: usize,
    root: Node,
}

impl Trie {
    /// The bit length of the values.
    pub closed spec fn spec_bits(&self) -> nat {
        self.bits as nat
    }

    /// The values in the set.
    pub closed spec fn members(&self) -> Set<Seq<bool>> {
        Set::new(|v: Seq<bool>| v.len() == self.bits && self.root.has(v))
    }

    /// The trie is well formed: its nodes sit at the depths its height gives them.
    pub closed spec fn wf(&self) -> bool {
        self.root.wf(self.bits as nat)
    }

    /// An empty trie of height `bits`.
    pub fn new(bits: usize) -> (r: Self)
        ensures
            r.wf(),
            r.spec_bits() == bits,
            r.members() == Set::<Seq<bool>>::empty(),
    {
        let r = Trie { bits, root: Node::Empty };
        assert(r.members() =~= Set::<Seq<bool>>::empty());
        r
    }

    /// Merkle roots are computed in the following way. A leaf is assigned a value 1 if its position
    /// in the tree (i.e., its pattern of left and right branches) corresponds to a member of the
    /// set, otherwise it is assigned 0. A non-leaf node is assigned compress(left, right), where
    /// left and right correspond to the node's children.
    ///
    /// If a node is empty (i.e., the set contains no values prefixed with the node's position), it
    /// is assigned a value as if it had two empty nodes as children, even though no such children
    /// are stored in memory. This simplifies certain authenticated operations. For example, to
    /// prove that a set S does not contain a value x, we can prove inclusion of a leaf node whose
    /// position is x and whose value is zero, even though such a node is not stored in memory.
    pub fn merkle_root<F: Field, C: Fn(Element<F>, Element<F>) -> Element<F>>(
        &self,
        compress: &C,
    ) -> (r: Element<F>)
        requires
            self.wf(),
            forall|a: Element<F>, b: Element<F>| compress.requires((a, b)),
        ensures
            forall|f: spec_fn(nat, nat) -> nat|
                #[trigger] computes(*compress, f) ==> r@ == merkle_hash(
                    self.members(),
                    self.spec_bits(),
                    f,
                ),
    {
        let r = self.root.hash(self.bits, compress);
        proof {
            assert(self.members() =~= self.root.node_members(self.bits as nat));
            assert forall|f: spec_fn(nat, nat) -> nat| #[trigger] computes(*compress, f) implies r@
                == merkle_hash(self.members(), self.spec_bits(), f) by {
                lemma_hash_of_computes(self.members(), self.spec_bits(), *compress, r@, f);
            }
        }
        r
    }

    /// Whether `value` is in the set. It must have the trie's bit length.
    pub fn contains(&self, value: &[bool]) -> (r: bool)
        requires
            self.wf(),
            value@.len() == self.spec_bits(),
        ensures
            r == self.members().contains(value@),
    {
        self.root.contains(value)
    }

    /// Adds `value` to the set. It must have the trie's bit length and not be in the set already.
    pub fn insert(&mut self, value: &[bool])
        requires
            old(self).wf(),
            value@.len() == old(self).spec_bits(),
            !old(self).members().contains(value@),
        ensures
            final(self).wf(),
            final(self).spec_bits() == old(self).spec_bits(),
            final(self).members() == old(self).members().insert(value@),
    {
        self.root.insert(value);
        assert(self.members() =~= old(self).members().insert(value@));
    }
}

/// Membership after a run of inserts: where each trie of `tries` is the one before it with the
/// matching value of `values` inserted, the last holds exactly the members of the first and the
/// inserted values.
pub proof fn lemma_members_after_inserts(tries: Seq<Trie>, values: Seq<Seq<bool>>, v: Seq<bool>)
    requires
        tries.len() == values.len() + 1,
        forall|i: int|
            0 <= i < values.len() ==> #[trigger] tries[i + 1].members() == tries[i].members().insert(
                values[i],
            ),
    ensures
        tries.last().members().contains(v) <==> tries[0].members().contains(v) || values.contains(v),
    decreases values.len(),
{
    if values.len() > 0 {
        let n = values.len() - 1;
        let t = tries.drop_last();
        let w = values.drop_last();
        assert forall|i: int| 0 <= i < w.len() implies #[trigger] t[i + 1].members() == t[i].members().insert(
            w[i],
        ) by {
            assert(t[i + 1] == tries[i + 1]);
            assert(tries[i + 1].members() == tries[i].members().insert(values[i]));
        }
        lemma_members_after_inserts(t, w, v);
        assert(tries[n + 1].members() == tries[n].members().insert(values[n]));
        assert(t.last() == tries[n]);
        if values.contains(v) && !w.contains(v) {
            let j = choose|j: int| 0 <= j < values.len() && values[j] == v;
            if j < n {
                assert(w[j] == v);
            }
        }
        if w.contains(v) {
            let j = choose|j: int| 0 <= j < w.len() && w[j] == v;
            assert(values[j] == v);
        }
    }
}

/// The strings of `s` that start with bit `b`, with that bit removed.
pub open spec fn branch(s: Set<Seq<bool>>, b: bool) -> Set<Seq<bool>> {
    Set::new(|v: Seq<bool>| s.contains(seq![b] + v))
}

/// `f` gives the value of every result of `compress`, from the values of its arguments.
pub open spec fn computes<F: Field, C: Fn(Element<F>, Element<F>) -> Element<F>>(
    compress: C,
    f: spec_fn(nat, nat) -> nat,
) -> bool {
    forall|a: Element<F>, b: Element<F>, r: Element<F>|
        #[trigger] compress.ensures((a, b), r) ==> r@ == f(a@, b@)
}

/// The Merkle hash of the set `s` of bit strings of length `height`, for the compression function
/// whose values `f` gives: at height 0 it is 1 if the empty string is in the set and 0 otherwise;
/// above that, it is `f` of the hashes of the strings that start with 0 and with 1, that bit
/// removed.
pub open spec fn merkle_hash(s: Set<Seq<bool>>, height: nat, f: spec_fn(nat, nat) -> nat) -> nat
    decreases height,
{
    if height == 0 {
        if s.contains(Seq::<bool>::empty()) {
            1
        } else {
            0
        }
    } else {
        f(
            merkle_hash(branch(s, false), (height - 1) as nat, f),
            merkle_hash(branch(s, true), (height - 1) as nat, f),
        )
    }
}

/// Where `f` gives the results of `compress`, every Merkle hash of a set is its `merkle_hash`.
proof fn lemma_hash_of_computes<F: Field, C: Fn(Element<F>, Element<F>) -> Element<F>>(
    s: Set<Seq<bool>>,
    height: nat,
    compress: C,
    v: nat,
    f: spec_fn(nat, nat) -> nat,
)
    requires
        merkle_hash_of(s, height, compress, v),
        computes(compress, f),
    ensures
        v == merkle_hash(s, height, f),
    decreases height,
{
    reveal(merkle_hash_of);
    if height > 0 {
        let (h0, h1, r) = choose|h0: Element<F>, h1: Element<F>, r: Element<F>|
            #![trigger compress.ensures((h0, h1), r)]
            merkle_hash_of(branch(s, false), (height - 1) as nat, compress, h0@) && merkle_hash_of(
                branch(s, true),
                (height - 1) as nat,
                compress,
                h1@,
            ) && compress.ensures((h0, h1), r) && r@ == v;
        lemma_hash_of_computes(branch(s, false), (height - 1) as nat, compress, h0@, f);
        lemma_hash_of_computes(branch(s, true), (height - 1) as nat, compress, h1@, f);
    }
}

/// `v` is a Merkle hash of the set `s` of bit strings of length `height`: at height 0 it is 1 if
/// the empty string is in the set and 0 otherwise; above that, it is the value of a result of
/// `compress` on two elements whose values are Merkle hashes of the strings that start with 0 and
/// with 1, that bit removed.
#[verifier::opaque]
spec fn merkle_hash_of<F: Field, C: Fn(Element<F>, Element<F>) -> Element<F>>(
    s: Set<Seq<bool>>,
    height: nat,
    compress: C,
    v: nat,
) -> bool
    decreases height,
{
    if height == 0 {
        v == if s.contains(Seq::<bool>::empty()) {
            1nat
        } else {
            0nat
        }
    } else {
        exists|h0: Element<F>, h1: Element<F>, r: Element<F>|
            #![trigger compress.ensures((h0, h1), r)]
            merkle_hash_of(branch(s, false), (height - 1) as nat, compress, h0@) && merkle_hash_of(
                branch(s, true),
                (height - 1) as nat,
                compress,
                h1@,
            ) && compress.ensures((h0, h1), r) && r@ == v
    }
}

/// Both halves of the empty set are empty.
proof fn lemma_branch_empty()
    ensures
        branch(Set::<Seq<bool>>::empty(), false) == Set::<Seq<bool>>::empty(),
        branch(Set::<Seq<bool>>::empty(), true) == Set::<Seq<bool>>::empty(),
{
    assert(branch(Set::<Seq<bool>>::empty(), false) =~= Set::<Seq<bool>>::empty());
    assert(branch(Set::<Seq<bool>>::empty(), true) =~= Set::<Seq<bool>>::empty());
}

/// A result of `compress` on hashes of the two halves of a set is a hash of the set.
proof fn lemma_hash_step<F: Field, C: Fn(Element<F>, Element<F>) -> Element<F>>(
    s: Set<Seq<bool>>,
    height: nat,
    compress: C,
    h0: Element<F>,
    h1: Element<F>,
    r: Element<F>,
)
    requires
        height > 0,
        merkle_hash_of(branch(s, false), (height - 1) as nat, compress, h0@),
        merkle_hash_of(branch(s, true), (height - 1) as nat, compress, h1@),
        compress.ensures((h0, h1), r),
    ensures
        merkle_hash_of(s, height, compress, r@),
{
    reveal(merkle_hash_of);
}

/// At height 0 the hash of a set is 1 if it holds the empty string and 0 otherwise.
proof fn lemma_hash_leaf<F: Field, C: Fn(Element<F>, Element<F>) -> Element<F>>(
    s: Set<Seq<bool>>,
    compress: C,
    v: nat,
)
    requires
        v == if s.contains(Seq::<bool>::empty()) {
            1nat
        } else {
            0nat
        },
    ensures
        merkle_hash_of(s, 0, compress, v),
{
    reveal(merkle_hash_of);
}

/// The members below an intermediate node, split by their first bit, are the members below its
/// children.
proof fn lemma_branch_intermediate(c0: Node, c1: Node, h: nat)
    requires
        h > 0,
    ensures
        branch(Node::Intermediate { child_0: Box::new(c0), child_1: Box::new(c1) }.node_members(h), false)
            == c0.node_members((h - 1) as nat),
        branch(Node::Intermediate { child_0: Box::new(c0), child_1: Box::new(c1) }.node_members(h), true)
            == c1.node_members((h - 1) as nat),
{
    let n = Node::Intermediate { child_0: Box::new(c0), child_1: Box::new(c1) };
    assert forall|v: Seq<bool>| #[trigger] branch(n.node_members(h), false).contains(v)
        == c0.node_members((h - 1) as nat).contains(v) by {
        let w = seq![false] + v;
        assert(w.drop_first() =~= v);
        assert(w[0] == false);
    }
    assert forall|v: Seq<bool>| #[trigger] branch(n.node_members(h), true).contains(v)
        == c1.node_members((h - 1) as nat).contains(v) by {
        let w = seq![true] + v;
        assert(w.drop_first() =~= v);
        assert(w[0] == true);
    }
    assert(branch(n.node_members(h), false) =~= c0.node_members((h - 1) as nat));
    assert(branch(n.node_members(h), true) =~= c1.node_members((h - 1) as nat));
}

/// A node of a trie.
#[derive(Debug)]
pub enum Node {
    Leaf,
    Empty,
    Intermediate { child_0: Box<Node>, child_1: Box<Node> },
}

impl Node {
    /// The node sits `depth` levels above the leaves: leaves only at depth 0, and intermediate
    /// nodes only above it.
    pub open spec fn wf(&self, depth: nat) -> bool
        decreases self,
    {
        match self {
            Node::Leaf => depth == 0,
            Node::Empty => true,
            Node::Intermediate { child_0, child_1 } => depth > 0 && child_0.wf((depth - 1) as nat)
                && child_1.wf((depth - 1) as nat),
        }
    }

    /// The bit string `value`, read from this node down, leads to a leaf.
    pub open spec fn has(&self, value: Seq<bool>) -> bool
        decreases self,
    {
        match self {
            Node::Leaf => value.len() == 0,
            Node::Empty => false,
            Node::Intermediate { child_0, child_1 } => value.len() > 0 && if value[0] {
                child_1.has(value.drop_first())
            } else {
                child_0.has(value.drop_first())
            },
        }
    }

    /// The bit strings of length `height` that lead from this node to a leaf.
    pub open spec fn node_members(&self, height: nat) -> Set<Seq<bool>> {
        Set::new(|v: Seq<bool>| v.len() == height && self.has(v))
    }

    /// The Merkle hash of this node, `bits_left` levels above the leaves.
    fn hash<F: Field, C: Fn(Element<F>, Element<F>) -> Element<F>>(
        &self,
        bits_left: usize,
        compress: &C,
    ) -> (r: Element<F>)
        requires
            self.wf(bits_left as nat),
            forall|a: Element<F>, b: Element<F>| compress.requires((a, b)),
        ensures
            merkle_hash_of(self.node_members(bits_left as nat), bits_left as nat, *compress, r@),
        decreases self,
    {
        match self {
            Node::Leaf => {
                let r = Element::one();
                proof {
                    assert(self.node_members(0).contains(Seq::<bool>::empty()));
                    lemma_hash_leaf(self.node_members(0), *compress, r@);
                }
                r
            },
            Node::Empty => {
                let r = Node::empty_hash(bits_left, compress);
                proof {
                    assert(self.node_members(bits_left as nat) =~= Set::<Seq<bool>>::empty());
                }
                r
            },
            Node::Intermediate { child_0, child_1 } => {
                let h0 = child_0.hash(bits_left - 1, compress);
                let h1 = child_1.hash(bits_left - 1, compress);
                let r = compress(h0, h1);
                proof {
                    let h = bits_left as nat;
                    lemma_branch_intermediate(**child_0, **child_1, h);
                    lemma_hash_step(self.node_members(h), h, *compress, h0, h1, r);
                }
                r
            },
        }
    }

    /// The Merkle hash of an empty node `bits_left` levels above the leaves.
    fn empty_hash<F: Field, C: Fn(Element<F>, Element<F>) -> Element<F>>(
        bits_left: usize,
        compress: &C,
    ) -> (r: Element<F>)
        requires
            forall|a: Element<F>, b: Element<F>| compress.requires((a, b)),
        ensures
            merkle_hash_of(Set::<Seq<bool>>::empty(), bits_left as nat, *compress, r@),
        decreases bits_left,
    {
        if bits_left == 0 {
            let r = Element::zero();
            proof {
                lemma_hash_leaf(Set::<Seq<bool>>::empty(), *compress, r@);
            }
            r
        } else {
            let child_hash = Node::empty_hash(bits_left - 1, compress);
            let copy = child_hash.copy();
            let r = compress(copy, child_hash);
            proof {
                let e = Set::<Seq<bool>>::empty();
                lemma_branch_empty();
                lemma_hash_step(e, bits_left as nat, *compress, copy, child_hash, r);
            }
            r
        }
    }

    /// Whether `value` leads from this node to a leaf; `value` must have this node's depth.
    pub fn contains(&self, value: &[bool]) -> (r: bool)
        requires
            self.wf(value@.len()),
        ensures
            r == self.has(value@),
    {
        proof {
            assert(value@.subrange(0, value@.len() as int) =~= value@);
        }
        self.contains_from(value, 0)
    }

    fn contains_from(&self, value: &[bool], start: usize) -> (r: bool)
        requires
            start <= value@.len(),
            self.wf((value@.len() - start) as nat),
        ensures
            r == self.has(value@.subrange(start as int, value@.len() as int)),
        decreases self,
    {
        let ghost rest = value@.subrange(start as int, value@.len() as int);
        match self {
            Node::Leaf => true,
            Node::Empty => false,
            Node::Intermediate { child_0, child_1 } => {
                let first = value[start];
                proof {
                    assert(rest.drop_first() =~= value@.subrange(start + 1, value@.len() as int));
                }
                if first {
                    child_1.contains_from(value, start + 1)
                } else {
                    child_0.contains_from(value, start + 1)
                }
            },
        }
    }

    /// Adds `value` below this node; `value` must have this node's depth and not be present.
    pub fn insert(&mut self, value: &[bool])
        requires
            old(self).wf(value@.len()),
            !old(self).has(value@),
        ensures
            final(self).wf(value@.len()),
            forall|v: Seq<bool>| #[trigger] final(self).has(v) == (old(self).has(v) || v == value@),
    {
        let mut node = Node::Empty;
        std::mem::swap(&mut node, self);
        proof {
            assert(value@.subrange(0, value@.len() as int) =~= value@);
        }
        let inserted = node.inserted(value, 0);
        *self = inserted;
    }

    /// This node with `value[start..]` added below it.
    fn inserted(self, value: &[bool], start: usize) -> (r: Node)
        requires
            start <= value@.len(),
            self.wf((value@.len() - start) as nat),
            !self.has(value@.subrange(start as int, value@.len() as int)),
        ensures
            r.wf((value@.len() - start) as nat),
            forall|v: Seq<bool>|
                #[trigger] r.has(v) == (self.has(v) || v == value@.subrange(
                    start as int,
                    value@.len() as int,
                )),
        decreases value@.len() - start, if self is Empty { 1nat } else { 0nat },
    {
        let ghost rest = value@.subrange(start as int, value@.len() as int);
        match self {
            Node::Leaf => {
                // A leaf has no bits left, so the value is present; the precondition excludes it.
                Node::Leaf
            },
            Node::Empty => {
                if start == value.len() {
                    proof {
                        assert forall|v: Seq<bool>| #[trigger] Node::Leaf.has(v) == (Node::Empty.has(v)
                            || v == rest) by {
                            if v.len() == 0 {
                                assert(v =~= rest);
                            }
                        }
                    }
                    Node::Leaf
                } else {
                    let fresh = Node::Intermediate {
                        child_0: Box::new(Node::Empty),
                        child_1: Box::new(Node::Empty),
                    };
                    proof {
                        assert(Node::Empty.wf((value@.len() - start - 1) as nat));
                        assert(fresh.wf((value@.len() - start) as nat));
                        assert forall|v: Seq<bool>| !#[trigger] fresh.has(v) by {
                            if v.len() > 0 {
                                assert(!Node::Empty.has(v.drop_first()));
                            }
                        }
                    }
                    fresh.inserted(value, start)
                }
            },
            Node::Intermediate { child_0, child_1 } => {
                let first = value[start];
                let ghost tail = value@.subrange(start + 1, value@.len() as int);
                proof {
                    assert(rest.drop_first() =~= tail);
                    assert(rest[0] == first);
                    assert(rest.len() == tail.len() + 1);
                }
                if first {
                    let c1 = (*child_1).inserted(value, start + 1);
                    let r = Node::Intermediate { child_0, child_1: Box::new(c1) };
                    proof {
                        assert forall|v: Seq<bool>| #[trigger] r.has(v) == (self.has(v) || v == rest) by {
                            if v.len() > 0 {
                                assert(c1.has(v.drop_first()) == (child_1.has(v.drop_first())
                                    || v.drop_first() == tail));
                                if v[0] == first && v.drop_first() == tail {
                                    assert forall|i: int| 0 <= i < v.len() implies v[i] == rest[i] by {
                                        if i > 0 {
                                            assert(v[i] == v.drop_first()[i - 1]);
                                            assert(rest[i] == rest.drop_first()[i - 1]);
                                        }
                                    }
                                    assert(v =~= rest);
                                }
                            }
                            if v == rest {
                                assert(v.drop_first() =~= tail);
                            }
                        }
                    }
                    r
                } else {
                    let c0 = (*child_0).inserted(value, start + 1);
                    let r = Node::Intermediate { child_0: Box::new(c0), child_1 };
                    proof {
                        assert forall|v: Seq<bool>| #[trigger] r.has(v) == (self.has(v) || v == rest) by {
                            if v.len() > 0 {
                                assert(c0.has(v.drop_first()) == (child_0.has(v.drop_first())
                                    || v.drop_first() == tail));
                                if v[0] == first && v.drop_first() == tail {
                                    assert forall|i: int| 0 <= i < v.len() implies v[i] == rest[i] by {
                                        if i > 0 {
                                            assert(v[i] == v.drop_first()[i - 1]);
                                            assert(rest[i] == rest.drop_first()[i - 1]);
                                        }
                                    }
                                    assert(v =~= rest);
                                }
                            }
                            if v == rest {
                                assert(v.drop_first() =~= tail);
                            }
                        }
                    }
                    r
                }
            },
        }
    }
}

} // verus!
