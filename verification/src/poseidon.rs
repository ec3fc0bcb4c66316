//! The Poseidon permutation.

use vstd::prelude::*;

use crate::expression::Expression;
use crate::field::{field_mul, field_pow, spec_gcd, Element, Field};
use crate::gadget_builder::{
    lemma_eval_bound, lemma_extends_trans, lemma_satisfied_prefix, valid_assignment, GadgetBuilder,
};
use crate::gadget_traits::expression_values;
use crate::matrices::mat_vec;
use crate::primes::is_prime;
use crate::gadget_traits::{MultiPermutation, Permutation};
use crate::matrices::MdsMatrix;
use crate::permutations::{has_root_exponent, InversePermutation, MonomialPermutation};
use crate::splitting::field_bits;
use crate::wire::Wire;
use crate::witness_generator::{Generate, WitnessGenerator};

verus! {

/// An S-Box that can be used with Poseidon.
#[derive(Copy, Clone, Debug, PartialEq, Eq, Structural)]
pub enum PoseidonSbox {
    Exponentiation3,
    Exponentiation5,
    Inverse,
}

/// The number full and partial of rounds to use in an instance of Poseidon.
#[derive(Copy, Clone, Debug, PartialEq, Eq, Structural)]
pub struct NumberOfRounds {
    pub full: usize,
    pub partial: usize,
}

/// The exponent of a monomial S-box.
pub open spec fn sbox_exponent(sbox: PoseidonSbox) -> nat {
    match sbox {
        PoseidonSbox::Exponentiation3 => 3,
        PoseidonSbox::Exponentiation5 => 5,
        PoseidonSbox::Inverse => 0,
    }
}

/// The S-box is a permutation of `F_p` that this library can apply and invert: `x^n` needs
/// `gcd(n, p - 1) = 1` and a root exponent; `1 / x` always works.
pub open spec fn sbox_usable(sbox: PoseidonSbox, p: nat) -> bool {
    match sbox {
        PoseidonSbox::Inverse => true,
        _ => {
            &&& sbox_exponent(sbox) < p
            &&& spec_gcd((p - 1) as nat, sbox_exponent(sbox)) == 1
            &&& has_root_exponent(p, sbox_exponent(sbox))
        },
    }
}

/// An upper bound on the wires of one S-box application or inversion.
pub open spec fn sbox_wires<F: Field>() -> nat {
    2 * field_bits::<F>() + 3
}

/// The S-box on `x`: `x^3`, `x^5`, or `1 / x` with zero mapped to itself.
pub open spec fn sbox_value(sbox: PoseidonSbox, x: nat, p: nat) -> nat {
    match sbox {
        PoseidonSbox::Exponentiation3 => field_pow(x, 3, p),
        PoseidonSbox::Exponentiation5 => field_pow(x, 5, p),
        PoseidonSbox::Inverse => if x == 0 {
            0
        } else {
            field_pow(x, (p - 2) as nat, p)
        },
    }
}

/// The sub words layer: the S-box on every element in a full round, on the first only in a
/// partial round.
pub open spec fn sub_words(s: Seq<nat>, full: bool, sbox: PoseidonSbox, p: nat) -> Seq<nat> {
    if full {
        s.map_values(|x: nat| sbox_value(sbox, x, p))
    } else {
        s.update(0, sbox_value(sbox, s[0], p))
    }
}

/// The mix layer: the product of the MDS matrix with the state.
pub open spec fn mix(rows: Seq<Seq<nat>>, s: Seq<nat>, p: nat) -> Seq<nat> {
    mat_vec(rows, s, p)
}

/// Round `round` of `rounds` is a full round: it is among the first or the last `half`.
pub open spec fn round_is_full(round: nat, rounds: nat, half: nat) -> bool {
    round < half || round + half >= rounds
}

/// The state after rounds `round..rounds` of the permutation, from state `s`.
pub open spec fn poseidon_rounds(
    s: Seq<nat>,
    round: nat,
    rounds: nat,
    half: nat,
    sbox: PoseidonSbox,
    rows: Seq<Seq<nat>>,
    p: nat,
) -> Seq<nat>
    decreases rounds - round,
{
    if round >= rounds {
        s
    } else {
        poseidon_rounds(
            mix(rows, sub_words(s, round_is_full(round, rounds, half), sbox, p), p),
            round + 1,
            rounds,
            half,
            sbox,
            rows,
            p,
        )
    }
}

/// The values form a vector of `n` elements of `F_p`.
pub open spec fn field_vector(s: Seq<nat>, n: nat, p: nat) -> bool {
    &&& s.len() == n
    &&& forall|i: int| 0 <= i < s.len() ==> #[trigger] s[i] < p
}

/// The mix layer maps distinct vectors of field elements to distinct vectors.
pub open spec fn mix_injective(rows: Seq<Seq<nat>>, p: nat) -> bool {
    forall|u: Seq<nat>, v: Seq<nat>|
        #![trigger mix(rows, u, p), mix(rows, v, p)]
        field_vector(u, rows.len(), p) && field_vector(v, rows.len(), p) && mix(rows, u, p) == mix(
            rows,
            v,
            p,
        ) ==> u == v
}

/// A dot product in `F_p` is a field element.
proof fn lemma_dot_bound(row: Seq<nat>, v: Seq<nat>, p: nat)
    requires
        p > 0,
    ensures
        crate::matrices::dot(row, v, p) < p,
{
    if row.len() > 0 {
        vstd::arithmetic::div_mod::lemma_mod_bound(
            (crate::matrices::dot(row.drop_last(), v, p) + field_mul(row.last(), v[row.len() - 1], p)) as int,
            p as int,
        );
    }
}

/// The S-box is injective on `F_p`.
pub proof fn lemma_sbox_injective(sbox: PoseidonSbox, x: nat, y: nat, p: nat)
    requires
        is_prime(p),
        sbox_usable(sbox, p),
        x < p,
        y < p,
        sbox_value(sbox, x, p) == sbox_value(sbox, y, p),
    ensures
        x == y,
{
    match sbox {
        PoseidonSbox::Inverse => {
            if x != 0 {
                crate::fermat::lemma_inverse(p, x);
            }
            if y != 0 {
                crate::fermat::lemma_inverse(p, y);
            }
            let v = sbox_value(sbox, x, p);
            if x != 0 && y != 0 {
                vstd::arithmetic::div_mod::lemma_mod_bound(
                    vstd::arithmetic::power::pow(x as int, (p - 2) as nat),
                    p as int,
                );
                if v == 0 {
                    assert(x * 0 == 0);
                    vstd::arithmetic::div_mod::lemma_small_mod(0, p);
                }
                vstd::arithmetic::mul::lemma_mul_is_commutative(x as int, v as int);
                vstd::arithmetic::mul::lemma_mul_is_commutative(y as int, v as int);
                crate::curve::lemma_fraction_unique(1, v, x, p);
                crate::curve::lemma_fraction_unique(1, v, y, p);
            } else if x != 0 || y != 0 {
                assert(v == 0);
                if x != 0 {
                    assert(x * 0 == 0);
                } else {
                    assert(y * 0 == 0);
                }
                vstd::arithmetic::div_mod::lemma_small_mod(0, p);
            }
        },
        _ => {
            crate::permutations::lemma_monomial_injective(p, sbox_exponent(sbox), x, y);
        },
    }
}

/// The sub words layer keeps vectors of field elements.
proof fn lemma_sub_words_field(s: Seq<nat>, full: bool, sbox: PoseidonSbox, p: nat, n: nat)
    requires
        p > 1,
        n > 0,
        field_vector(s, n, p),
    ensures
        field_vector(sub_words(s, full, sbox, p), n, p),
{
    assert(sub_words(s, full, sbox, p).len() == n);
    assert forall|i: int| 0 <= i < n implies #[trigger] sub_words(s, full, sbox, p)[i] < p by {
        match sbox {
            PoseidonSbox::Exponentiation3 => {
                vstd::arithmetic::div_mod::lemma_mod_bound(vstd::arithmetic::power::pow(s[i] as int, 3), p as int);
            },
            PoseidonSbox::Exponentiation5 => {
                vstd::arithmetic::div_mod::lemma_mod_bound(vstd::arithmetic::power::pow(s[i] as int, 5), p as int);
            },
            PoseidonSbox::Inverse => {
                vstd::arithmetic::div_mod::lemma_mod_bound(
                    vstd::arithmetic::power::pow(s[i] as int, (p - 2) as nat),
                    p as int,
                );
            },
        }
    }
}

/// Poseidon's rounds are injective on vectors of field elements where the mix layer is.
pub proof fn lemma_poseidon_rounds_injective(
    s: Seq<nat>,
    t: Seq<nat>,
    round: nat,
    rounds: nat,
    half: nat,
    sbox: PoseidonSbox,
    rows: Seq<Seq<nat>>,
    p: nat,
)
    requires
        is_prime(p),
        sbox_usable(sbox, p),
        mix_injective(rows, p),
        rows.len() > 0,
        field_vector(s, rows.len(), p),
        field_vector(t, rows.len(), p),
        poseidon_rounds(s, round, rounds, half, sbox, rows, p) == poseidon_rounds(
            t,
            round,
            rounds,
            half,
            sbox,
            rows,
            p,
        ),
    ensures
        s == t,
    decreases rounds - round,
{
    if round < rounds {
        let n = rows.len();
        let fl = round_is_full(round, rounds, half);
        let s1 = sub_words(s, fl, sbox, p);
        let t1 = sub_words(t, fl, sbox, p);
        let s2 = mix(rows, s1, p);
        let t2 = mix(rows, t1, p);
        lemma_sub_words_field(s, fl, sbox, p, n);
        lemma_sub_words_field(t, fl, sbox, p, n);
        assert forall|i: int| 0 <= i < n implies #[trigger] s2[i] < p && t2[i] < p by {
            lemma_dot_bound(rows[i], s1, p);
            lemma_dot_bound(rows[i], t1, p);
        }
        lemma_poseidon_rounds_injective(s2, t2, round + 1, rounds, half, sbox, rows, p);
        assert(s1 == t1);
        assert forall|i: int| 0 <= i < n implies #[trigger] s[i] == t[i] by {
            if fl || i == 0 {
                assert(s1[i] == sbox_value(sbox, s[i], p));
                assert(t1[i] == sbox_value(sbox, t[i], p));
                lemma_sbox_injective(sbox, s[i], t[i], p);
            } else {
                assert(s1[i] == s[i]);
                assert(t1[i] == t[i]);
            }
        }
        assert(s =~= t);
    }
}

/// In a prime field, the inverse gadget's relation pins `r` to `1 / x`.
proof fn lemma_inverse_sbox(x: nat, r: nat, p: nat)
    requires
        is_prime(p),
        x < p,
        r < p,
        x == 0 <==> r == 0,
        x != 0 ==> field_mul(x, r, p) == 1,
    ensures
        r == sbox_value(PoseidonSbox::Inverse, x, p),
{
    if x != 0 {
        crate::curve::lemma_fraction_unique(1, x, r, p);
        let inv = field_pow(x, (p - 2) as nat, p);
        vstd::arithmetic::div_mod::lemma_mod_bound(vstd::arithmetic::power::pow(x as int, (p - 2) as nat), p as int);
        assert(1 * inv == inv);
        vstd::arithmetic::div_mod::lemma_small_mod(inv, p);
    }
}

/// The number of S-boxes in a Poseidon permutation: one per element in full rounds, one in
/// partial rounds.
pub open spec fn spec_num_sboxes(width: nat, num_rounds: NumberOfRounds) -> nat {
    (num_rounds.full as nat) * width + (num_rounds.partial as nat)
}

/// The number of S-boxes in a Poseidon permutation of the given width. The count must fit in a
/// `usize`.
pub fn num_sboxes(width: usize, num_rounds: NumberOfRounds) -> (r: usize)
    requires
        spec_num_sboxes(width as nat, num_rounds) <= usize::MAX,
    ensures
        r == spec_num_sboxes(width as nat, num_rounds),
{
    proof {
        assert(num_rounds.full * width <= spec_num_sboxes(width as nat, num_rounds));
    }
    num_rounds.full * width + num_rounds.partial
}

/// The Poseidon permutation.
pub struct Poseidon<F: Field> {
    /// The size of the permutation, in field elements.
    width: usize,
    /// The number full and partial of rounds to use.
    num_rounds: NumberOfRounds,
    /// The S-box to apply in the sub words layer.
    sbox: PoseidonSbox,
    /// The MDS matrix to apply in the mix layer.
    mds_matrix: MdsMatrix<F>,
}

impl<F: Field> Poseidon<F> {
    pub closed spec fn spec_width(&self) -> nat {
        self.width as nat
    }

    pub closed spec fn spec_num_rounds(&self) -> NumberOfRounds {
        self.num_rounds
    }

    /// The rows of the MDS matrix, as values.
    pub closed spec fn spec_rows(&self) -> Seq<Seq<nat>> {
        self.mds_matrix.spec_rows()
    }

    /// The number of rounds, full and partial.
    pub open spec fn spec_total_rounds(&self) -> nat {
        (self.spec_num_rounds().full as nat) + (self.spec_num_rounds().partial as nat)
    }

    /// The number of full rounds before the partial ones (and after them).
    pub open spec fn spec_half_full_rounds(&self) -> nat {
        (self.spec_num_rounds().full / 2) as nat
    }

    pub closed spec fn spec_sbox(&self) -> PoseidonSbox {
        self.sbox
    }

    /// The full rounds split evenly around the partial ones, the S-box can be applied and inverted,
    /// and the mix layer maps `width` elements to `width` elements.
    #[verifier::type_invariant]
    spec fn inv(&self) -> bool {
        &&& self.num_rounds.full % 2 == 0
        &&& self.num_rounds.full + self.num_rounds.partial <= usize::MAX
        &&& sbox_usable(self.sbox, F::modulus())
        &&& self.mds_matrix.spec_rows().len() == self.width
        &&& self.mds_matrix.spec_cols() == self.width
        &&& self.num_rounds.partial > 0 ==> self.width > 0
    }

    /// Applies the S-box.
    fn sbox_permute(&self, builder: &mut GadgetBuilder<F>, x: &Expression<F>) -> (r: Expression<F>)
        requires
            old(builder).has_room(sbox_wires::<F>()),
        ensures
            final(builder).extends(*old(builder)),
            final(builder).next_index() <= old(builder).next_index() + sbox_wires::<F>(),
            forall|vals: Map<u32, nat>|
                #![trigger final(builder).satisfied(vals)]
                final(builder).satisfied(vals) && valid_assignment(vals, F::modulus()) && is_prime(
                    F::modulus(),
                ) ==> r.eval(vals) == sbox_value(self.spec_sbox(), x.eval(vals), F::modulus()),
    {
        proof {
            use_type_invariant(self);
        }
        match self.sbox {
            PoseidonSbox::Inverse => {
                let perm = InversePermutation {};
                let r = perm.permute(builder, x);
                proof {
                    assert forall|vals: Map<u32, nat>| #![trigger builder.satisfied(vals)]
                        builder.satisfied(vals) && valid_assignment(vals, F::modulus()) && is_prime(
                            F::modulus(),
                        ) implies r.eval(vals) == sbox_value(self.spec_sbox(), x.eval(vals), F::modulus()) by {
                        assert(<InversePermutation as Permutation<F>>::maps_to(&perm, x.eval(vals), r.eval(vals)));
                        lemma_eval_bound::<F>(x, vals);
                        lemma_eval_bound::<F>(&r, vals);
                        lemma_inverse_sbox(x.eval(vals), r.eval(vals), F::modulus());
                    }
                }
                r
            },
            PoseidonSbox::Exponentiation3 => {
                let perm = MonomialPermutation::new(Element::from_u128(3));
                perm.permute(builder, x)
            },
            PoseidonSbox::Exponentiation5 => {
                let perm = MonomialPermutation::new(Element::from_u128(5));
                perm.permute(builder, x)
            },
        }
    }

    /// Inverts the S-box.
    fn sbox_inverse(&self, builder: &mut GadgetBuilder<F>, x: &Expression<F>) -> (r: Expression<F>)
        requires
            old(builder).has_room(sbox_wires::<F>()),
        ensures
            final(builder).extends(*old(builder)),
            final(builder).next_index() <= old(builder).next_index() + sbox_wires::<F>(),
            forall|vals: Map<u32, nat>|
                #![trigger final(builder).satisfied(vals)]
                final(builder).satisfied(vals) && valid_assignment(vals, F::modulus()) && is_prime(
                    F::modulus(),
                ) ==> sbox_value(self.spec_sbox(), r.eval(vals), F::modulus()) == x.eval(vals),
    {
        proof {
            use_type_invariant(self);
        }
        match self.sbox {
            PoseidonSbox::Inverse => {
                let perm = InversePermutation {};
                let r = perm.inverse(builder, x);
                proof {
                    assert forall|vals: Map<u32, nat>| #![trigger builder.satisfied(vals)]
                        builder.satisfied(vals) && valid_assignment(vals, F::modulus()) && is_prime(
                            F::modulus(),
                        ) implies sbox_value(self.spec_sbox(), r.eval(vals), F::modulus()) == x.eval(vals) by {
                        assert(<InversePermutation as Permutation<F>>::maps_to(&perm, r.eval(vals), x.eval(vals)));
                        lemma_eval_bound::<F>(x, vals);
                        lemma_eval_bound::<F>(&r, vals);
                        lemma_inverse_sbox(r.eval(vals), x.eval(vals), F::modulus());
                    }
                }
                r
            },
            PoseidonSbox::Exponentiation3 => {
                let perm = MonomialPermutation::new(Element::from_u128(3));
                perm.inverse(builder, x)
            },
            PoseidonSbox::Exponentiation5 => {
                let perm = MonomialPermutation::new(Element::from_u128(5));
                perm.inverse(builder, x)
            },
        }
    }

    /// Applies the S-box to every element.
    fn sbox_layer(&self, builder: &mut GadgetBuilder<F>, current: &Vec<Expression<F>>, inverse: bool) -> (r: Vec<
        Expression<F>,
    >)
        requires
            old(builder).has_room(current@.len() * sbox_wires::<F>()),
        ensures
            r@.len() == current@.len(),
            final(builder).extends(*old(builder)),
            final(builder).next_index() <= old(builder).next_index() + current@.len()
                * sbox_wires::<F>(),
            forall|vals: Map<u32, nat>|
                #![trigger final(builder).satisfied(vals)]
                final(builder).satisfied(vals) && valid_assignment(vals, F::modulus()) && is_prime(
                    F::modulus(),
                ) ==> if inverse {
                    sub_words(expression_values(r@, vals), true, self.spec_sbox(), F::modulus())
                        == expression_values(current@, vals)
                } else {
                    expression_values(r@, vals) == sub_words(
                        expression_values(current@, vals),
                        true,
                        self.spec_sbox(),
                        F::modulus(),
                    )
                },
    {
        let ghost start = *builder;
        let ghost w = sbox_wires::<F>();
        let ghost p = F::modulus();
        let ghost sb = self.spec_sbox();
        let mut out: Vec<Expression<F>> = Vec::new();
        let mut i: usize = 0;
        proof {
            crate::field_arithmetic::lemma_extends_refl(*builder);
        }
        while i < current.len()
            invariant
                i <= current@.len(),
                out@.len() == i,
                w == sbox_wires::<F>(),
                p == F::modulus(),
                sb == self.spec_sbox(),
                builder.extends(start),
                builder.next_index() <= start.next_index() + i * w,
                start.next_index() + current@.len() * w <= u32::MAX,
                forall|vals: Map<u32, nat>|
                    #![trigger builder.satisfied(vals)]
                    builder.satisfied(vals) && valid_assignment(vals, p) && is_prime(p) ==> forall|k: int|
                        0 <= k < i ==> if inverse {
                            sbox_value(sb, #[trigger] out@[k].eval(vals), p) == current@[k].eval(vals)
                        } else {
                            out@[k].eval(vals) == sbox_value(sb, current@[k].eval(vals), p)
                        },
            decreases current@.len() - i,
        {
            let ghost before = *builder;
            proof {
                assert((i + 1) * w == i * w + w) by (nonlinear_arith);
                assert((i + 1) * w <= current@.len() * w) by (nonlinear_arith)
                    requires
                        i + 1 <= current@.len(),
                ;
            }
            let e = if inverse {
                self.sbox_inverse(builder, &current[i])
            } else {
                self.sbox_permute(builder, &current[i])
            };
            proof {
                lemma_extends_trans(*builder, before, start);
            }
            let ghost old_out = out@;
            out.push(e);
            proof {
                assert forall|vals: Map<u32, nat>| #![trigger builder.satisfied(vals)]
                    builder.satisfied(vals) && valid_assignment(vals, p) && is_prime(p) implies forall|k: int|
                    0 <= k < i + 1 ==> if inverse {
                        sbox_value(sb, #[trigger] out@[k].eval(vals), p) == current@[k].eval(vals)
                    } else {
                        out@[k].eval(vals) == sbox_value(sb, current@[k].eval(vals), p)
                    } by {
                    lemma_satisfied_prefix(*builder, before, vals);
                    assert forall|k: int| 0 <= k < i + 1 implies if inverse {
                        sbox_value(sb, #[trigger] out@[k].eval(vals), p) == current@[k].eval(vals)
                    } else {
                        out@[k].eval(vals) == sbox_value(sb, current@[k].eval(vals), p)
                    } by {
                        if k < i {
                            assert(out@[k] == old_out[k]);
                        }
                    }
                }
            }
            i += 1;
        }
        proof {
            assert forall|vals: Map<u32, nat>| #![trigger builder.satisfied(vals)]
                builder.satisfied(vals) && valid_assignment(vals, p) && is_prime(p) implies if inverse {
                sub_words(expression_values(out@, vals), true, sb, p) == expression_values(current@, vals)
            } else {
                expression_values(out@, vals) == sub_words(expression_values(current@, vals), true, sb, p)
            } by {
                if inverse {
                    assert(sub_words(expression_values(out@, vals), true, sb, p) =~= expression_values(
                        current@,
                        vals,
                    ));
                } else {
                    assert(expression_values(out@, vals) =~= sub_words(
                        expression_values(current@, vals),
                        true,
                        sb,
                        p,
                    ));
                }
            }
        }
        out
    }

    /// Applies or inverts the S-box on the first element only.
    fn sbox_first(&self, builder: &mut GadgetBuilder<F>, current: Vec<Expression<F>>, inverse: bool) -> (r: Vec<
        Expression<F>,
    >)
        requires
            current@.len() > 0,
            old(builder).has_room(sbox_wires::<F>()),
        ensures
            r@.len() == current@.len(),
            final(builder).extends(*old(builder)),
            final(builder).next_index() <= old(builder).next_index() + sbox_wires::<F>(),
            forall|vals: Map<u32, nat>|
                #![trigger final(builder).satisfied(vals)]
                final(builder).satisfied(vals) && valid_assignment(vals, F::modulus()) && is_prime(
                    F::modulus(),
                ) ==> if inverse {
                    sub_words(expression_values(r@, vals), false, self.spec_sbox(), F::modulus())
                        == expression_values(current@, vals)
                } else {
                    expression_values(r@, vals) == sub_words(
                        expression_values(current@, vals),
                        false,
                        self.spec_sbox(),
                        F::modulus(),
                    )
                },
    {
        let ghost input = current@;
        let first = if inverse {
            self.sbox_inverse(builder, &current[0])
        } else {
            self.sbox_permute(builder, &current[0])
        };
        let mut out = current;
        out.set(0, first);
        proof {
            let p = F::modulus();
            let sb = self.spec_sbox();
            assert forall|vals: Map<u32, nat>| #![trigger builder.satisfied(vals)]
                builder.satisfied(vals) && valid_assignment(vals, p) && is_prime(p) implies if inverse {
                sub_words(expression_values(out@, vals), false, sb, p) == expression_values(input, vals)
            } else {
                expression_values(out@, vals) == sub_words(expression_values(input, vals), false, sb, p)
            } by {
                if inverse {
                    assert(sub_words(expression_values(out@, vals), false, sb, p) =~= expression_values(
                        input,
                        vals,
                    ));
                } else {
                    assert(expression_values(out@, vals) =~= sub_words(
                        expression_values(input, vals),
                        false,
                        sb,
                        p,
                    ));
                }
            }
        }
        out
    }

    /// The rounds of the permutation: in each, the sub words layer, then the mix layer.
    fn rounds(&self, builder: &mut GadgetBuilder<F>, inputs: &[Expression<F>]) -> (r: Vec<
        Expression<F>,
    >)
        requires
            inputs@.len() == self.spec_width(),
            old(builder).has_room(self.multi_permutation_wires()),
        ensures
            r@.len() == self.spec_width(),
            final(builder).extends(*old(builder)),
            final(builder).next_index() <= old(builder).next_index()
                + self.multi_permutation_wires(),
            forall|vals: Map<u32, nat>|
                #![trigger final(builder).satisfied(vals)]
                final(builder).satisfied(vals) && valid_assignment(vals, F::modulus()) && is_prime(
                    F::modulus(),
                ) ==> expression_values(r@, vals) == poseidon_rounds(
                    expression_values(inputs@, vals),
                    0,
                    self.spec_total_rounds(),
                    self.spec_half_full_rounds(),
                    self.spec_sbox(),
                    self.spec_rows(),
                    F::modulus(),
                ),
    {
        proof {
            use_type_invariant(self);
        }
        let ghost start = *builder;
        let ghost p = F::modulus();
        let ghost sb = self.spec_sbox();
        let ghost rows = self.spec_rows();
        let ghost total = self.spec_total_rounds();
        let ghost half = self.spec_half_full_rounds();
        let ghost per_round = self.width * sbox_wires::<F>() + self.width;
        let rounds = self.num_rounds.full + self.num_rounds.partial;
        let full_rounds_per_side = self.num_rounds.full / 2;

        let mut current: Vec<Expression<F>> = Vec::new();
        let mut k: usize = 0;
        while k < inputs.len()
            invariant
                k <= inputs@.len(),
                current@.len() == k,
                forall|j: int| 0 <= j < k ==> #[trigger] current@[j]@ == inputs@[j]@,
            decreases inputs@.len() - k,
        {
            current.push(inputs[k].copy());
            k += 1;
        }
        proof {
            crate::field_arithmetic::lemma_extends_refl(*builder);
            assert forall|vals: Map<u32, nat>| #![trigger builder.satisfied(vals)]
                builder.satisfied(vals) && valid_assignment(vals, p) && is_prime(p) implies poseidon_rounds(
                expression_values(inputs@, vals),
                0,
                total,
                half,
                sb,
                rows,
                p,
            ) == poseidon_rounds(expression_values(current@, vals), 0, total, half, sb, rows, p) by {
                assert(expression_values(current@, vals) =~= expression_values(inputs@, vals));
            }
        }
        let mut round: usize = 0;
        while round < rounds
            invariant
                round <= rounds,
                rounds == self.num_rounds.full + self.num_rounds.partial,
                full_rounds_per_side == self.num_rounds.full / 2,
                current@.len() == self.width,
                self.mds_matrix.spec_rows().len() == self.width,
                self.mds_matrix.spec_cols() == self.width,
                self.num_rounds.full % 2 == 0,
                self.num_rounds.partial > 0 ==> self.width > 0,
                per_round == self.width * sbox_wires::<F>() + self.width,
                self.multi_permutation_wires() == rounds * per_round,
                builder.extends(start),
                builder.next_index() <= start.next_index() + round * per_round,
                start.next_index() + rounds * per_round <= u32::MAX,
                p == F::modulus(),
                sb == self.spec_sbox(),
                rows == self.spec_rows(),
                rows.len() == self.width,
                total == rounds,
                half == full_rounds_per_side,
                forall|vals: Map<u32, nat>|
                    #![trigger builder.satisfied(vals)]
                    builder.satisfied(vals) && valid_assignment(vals, p) && is_prime(p) ==> poseidon_rounds(
                        expression_values(inputs@, vals),
                        0,
                        total,
                        half,
                        sb,
                        rows,
                        p,
                    ) == poseidon_rounds(expression_values(current@, vals), round as nat, total, half, sb, rows, p),
            decreases rounds - round,
        {
            let ghost before = *builder;
            proof {
                assert((round + 1) * per_round == round * per_round + per_round) by (nonlinear_arith);
                assert((round + 1) * per_round <= rounds * per_round) by (nonlinear_arith)
                    requires
                        round + 1 <= rounds,
                        per_round >= 0,
                ;
            }
            let ghost prev = current@;
            // Sub words layer.
            let full = round < full_rounds_per_side || round >= rounds - full_rounds_per_side;
            proof {
                assert(full == round_is_full(round as nat, total, half));
            }
            if full {
                current = self.sbox_layer(builder, &current, false);
            } else {
                proof {
                    assert(self.num_rounds.partial > 0);
                    assert(sbox_wires::<F>() <= per_round) by (nonlinear_arith)
                        requires
                            self.width >= 1,
                            per_round == self.width * sbox_wires::<F>() + self.width,
                    ;
                }
                current = self.sbox_first(builder, current, false);
            }
            let ghost subbed = current@;
            // Mix layer.
            current = self.mds_matrix.mul_expressions(current.as_slice());
            proof {
                lemma_extends_trans(*builder, before, start);
                assert forall|vals: Map<u32, nat>| #![trigger builder.satisfied(vals)]
                    builder.satisfied(vals) && valid_assignment(vals, p) && is_prime(p) implies poseidon_rounds(
                    expression_values(inputs@, vals),
                    0,
                    total,
                    half,
                    sb,
                    rows,
                    p,
                ) == poseidon_rounds(
                    expression_values(current@, vals),
                    (round + 1) as nat,
                    total,
                    half,
                    sb,
                    rows,
                    p,
                ) by {
                    lemma_satisfied_prefix(*builder, before, vals);
                    let fl = round_is_full(round as nat, total, half);
                    let old_vals = expression_values(prev, vals);
                    assert(expression_values(current@, vals) =~= mix(
                        rows,
                        expression_values(subbed, vals),
                        p,
                    ));
                    assert(poseidon_rounds(old_vals, round as nat, total, half, sb, rows, p)
                        == poseidon_rounds(
                        mix(rows, sub_words(old_vals, fl, sb, p), p),
                        (round + 1) as nat,
                        total,
                        half,
                        sb,
                        rows,
                        p,
                    ));
                }
            }
            let ghost next = (round + 1) as nat;
            round += 1;
            proof {
                assert(round as nat == next);
            }
        }
        current
    }

    /// New wires `r` that the mix layer maps to `current`: a constraint per row, and a generator
    /// that solves the linear system.
    fn unmix(&self, builder: &mut GadgetBuilder<F>, current: &Vec<Expression<F>>) -> (r: Vec<
        Expression<F>,
    >)
        requires
            current@.len() == self.spec_width(),
            old(builder).has_room(self.spec_width()),
        ensures
            r@.len() == self.spec_width(),
            final(builder).extends(*old(builder)),
            final(builder).next_index() <= old(builder).next_index() + self.spec_width(),
            forall|vals: Map<u32, nat>|
                #![trigger final(builder).satisfied(vals)]
                final(builder).satisfied(vals) && valid_assignment(vals, F::modulus()) ==> mix(
                    self.spec_rows(),
                    expression_values(r@, vals),
                    F::modulus(),
                ) == expression_values(current@, vals),
    {
        proof {
            use_type_invariant(self);
        }
        let ghost start = *builder;
        let ghost p = F::modulus();
        let ghost rows = self.spec_rows();
        let n = self.width;
        let ys = builder.wires(n);
        let mut y_exps: Vec<Expression<F>> = Vec::new();
        let mut i: usize = 0;
        while i < n
            invariant
                i <= n,
                ys@.len() == n,
                y_exps@.len() == i,
            decreases n - i,
        {
            y_exps.push(Expression::from_wire(ys[i]));
            i += 1;
        }
        let mixed = self.mds_matrix.mul_expressions(y_exps.as_slice());
        let ghost after_wires = *builder;
        proof {
            assert(after_wires.extends(start));
            crate::field_arithmetic::lemma_extends_refl(*builder);
        }
        let mut i: usize = 0;
        while i < n
            invariant
                i <= n,
                n == self.width,
                mixed@.len() == n,
                current@.len() == n,
                rows == self.spec_rows(),
                rows.len() == n,
                p == F::modulus(),
                builder.extends(after_wires),
                after_wires.extends(start),
                builder.next_index() == start.next_index() + n,
                forall|vals: Map<u32, nat>|
                    #![trigger builder.satisfied(vals)]
                    builder.satisfied(vals) && valid_assignment(vals, p) ==> forall|k: int|
                        0 <= k < i ==> #[trigger] mixed@[k].eval(vals) == current@[k].eval(vals),
            decreases n - i,
        {
            let ghost before = *builder;
            builder.assert_equal(&mixed[i], &current[i]);
            proof {
                lemma_extends_trans(*builder, before, after_wires);
                assert forall|vals: Map<u32, nat>| #![trigger builder.satisfied(vals)]
                    builder.satisfied(vals) && valid_assignment(vals, p) implies forall|k: int|
                    0 <= k < i + 1 ==> #[trigger] mixed@[k].eval(vals) == current@[k].eval(vals) by {
                    lemma_satisfied_prefix(*builder, before, vals);
                }
            }
            i += 1;
        }
        let mut deps: Vec<Wire> = Vec::new();
        let mut copies: Vec<Expression<F>> = Vec::new();
        let mut i: usize = 0;
        while i < n
            invariant
                i <= n,
                current@.len() == n,
            decreases n - i,
        {
            let mut d = current[i].dependencies();
            deps.append(&mut d);
            copies.push(current[i].copy());
            i += 1;
        }
        let ghost before_gen = *builder;
        let gen = WitnessGenerator::new(
            deps,
            Generate::Unmix { matrix: self.mds_matrix.copy(), rhs: copies, outputs: ys },
        );
        let ghost g = gen;
        builder.generator(gen);
        proof {
            crate::comparisons::lemma_generator_extends(*builder, before_gen, g);
            lemma_extends_trans(*builder, before_gen, after_wires);
            lemma_extends_trans(*builder, after_wires, start);
            assert forall|vals: Map<u32, nat>| #![trigger builder.satisfied(vals)]
                builder.satisfied(vals) && valid_assignment(vals, p) implies mix(
                rows,
                expression_values(y_exps@, vals),
                p,
            ) == expression_values(current@, vals) by {
                assert(builder.satisfied(vals) == before_gen.satisfied(vals));
                assert forall|k: int| 0 <= k < n implies #[trigger] mix(rows, expression_values(y_exps@, vals), p)[k]
                    == expression_values(current@, vals)[k] by {
                    assert(mixed@[k].eval(vals) == current@[k].eval(vals));
                }
                assert(mix(rows, expression_values(y_exps@, vals), p) =~= expression_values(current@, vals));
            }
        }
        y_exps
    }

    /// The rounds taken back, last round first: in each, new wires that the mix layer maps to the
    /// current state, then the inverse of the S-box on every element (full rounds) or on the first
    /// (partial rounds).
    fn inverse_rounds(&self, builder: &mut GadgetBuilder<F>, outputs: &[Expression<F>]) -> (r: Vec<
        Expression<F>,
    >)
        requires
            outputs@.len() == self.spec_width(),
            old(builder).has_room(self.multi_permutation_wires()),
        ensures
            r@.len() == self.spec_width(),
            final(builder).extends(*old(builder)),
            final(builder).next_index() <= old(builder).next_index()
                + self.multi_permutation_wires(),
            forall|vals: Map<u32, nat>|
                #![trigger final(builder).satisfied(vals)]
                final(builder).satisfied(vals) && valid_assignment(vals, F::modulus()) && is_prime(
                    F::modulus(),
                ) ==> poseidon_rounds(
                    expression_values(r@, vals),
                    0,
                    self.spec_total_rounds(),
                    self.spec_half_full_rounds(),
                    self.spec_sbox(),
                    self.spec_rows(),
                    F::modulus(),
                ) == expression_values(outputs@, vals),
    {
        proof {
            use_type_invariant(self);
        }
        let ghost start = *builder;
        let ghost p = F::modulus();
        let ghost sb = self.spec_sbox();
        let ghost rows = self.spec_rows();
        let ghost total = self.spec_total_rounds();
        let ghost half = self.spec_half_full_rounds();
        let ghost per_round = self.width * sbox_wires::<F>() + self.width;
        let rounds = self.num_rounds.full + self.num_rounds.partial;
        let full_rounds_per_side = self.num_rounds.full / 2;

        let mut current: Vec<Expression<F>> = Vec::new();
        let mut k: usize = 0;
        while k < outputs.len()
            invariant
                k <= outputs@.len(),
                current@.len() == k,
                forall|j: int| 0 <= j < k ==> #[trigger] current@[j]@ == outputs@[j]@,
            decreases outputs@.len() - k,
        {
            current.push(outputs[k].copy());
            k += 1;
        }
        proof {
            crate::field_arithmetic::lemma_extends_refl(*builder);
            assert forall|vals: Map<u32, nat>| #![trigger builder.satisfied(vals)]
                builder.satisfied(vals) && valid_assignment(vals, p) && is_prime(p) implies poseidon_rounds(
                expression_values(current@, vals),
                total,
                total,
                half,
                sb,
                rows,
                p,
            ) == expression_values(outputs@, vals) by {
                assert(expression_values(current@, vals) =~= expression_values(outputs@, vals));
            }
        }
        let mut round: usize = rounds;
        while round > 0
            invariant
                round <= rounds,
                rounds == self.num_rounds.full + self.num_rounds.partial,
                full_rounds_per_side == self.num_rounds.full / 2,
                current@.len() == self.width,
                self.mds_matrix.spec_rows().len() == self.width,
                self.mds_matrix.spec_cols() == self.width,
                self.num_rounds.full % 2 == 0,
                self.num_rounds.partial > 0 ==> self.width > 0,
                per_round == self.width * sbox_wires::<F>() + self.width,
                self.multi_permutation_wires() == rounds * per_round,
                builder.extends(start),
                builder.next_index() <= start.next_index() + (rounds - round) * per_round,
                start.next_index() + rounds * per_round <= u32::MAX,
                p == F::modulus(),
                sb == self.spec_sbox(),
                rows == self.spec_rows(),
                rows.len() == self.width,
                total == rounds,
                half == full_rounds_per_side,
                forall|vals: Map<u32, nat>|
                    #![trigger builder.satisfied(vals)]
                    builder.satisfied(vals) && valid_assignment(vals, p) && is_prime(p) ==> poseidon_rounds(
                        expression_values(current@, vals),
                        round as nat,
                        total,
                        half,
                        sb,
                        rows,
                        p,
                    ) == expression_values(outputs@, vals),
            decreases round,
        {
            let ghost before = *builder;
            let r = round - 1;
            proof {
                assert((rounds - r) * per_round == (rounds - round) * per_round + per_round) by (nonlinear_arith)
                    requires
                        r + 1 == round,
                ;
                assert((rounds - r) * per_round <= rounds * per_round) by (nonlinear_arith)
                    requires
                        r < rounds,
                        per_round >= 0,
                ;
            }
            let ghost prev = current@;
            // Mix layer, taken back.
            current = self.unmix(builder, &current);
            let ghost mid = *builder;
            let ghost unmixed = current@;
            // Sub words layer, taken back.
            let full = r < full_rounds_per_side || r >= rounds - full_rounds_per_side;
            proof {
                assert(full == round_is_full(r as nat, total, half));
            }
            if full {
                current = self.sbox_layer(builder, &current, true);
            } else {
                proof {
                    assert(self.num_rounds.partial > 0);
                    assert(sbox_wires::<F>() <= self.width * sbox_wires::<F>()) by (nonlinear_arith)
                        requires
                            self.width >= 1,
                    ;
                }
                current = self.sbox_first(builder, current, true);
            }
            proof {
                assert(builder.next_index() <= before.next_index() + per_round);
            }
            proof {
                lemma_extends_trans(*builder, mid, before);
                lemma_extends_trans(*builder, before, start);
                assert forall|vals: Map<u32, nat>| #![trigger builder.satisfied(vals)]
                    builder.satisfied(vals) && valid_assignment(vals, p) && is_prime(p) implies poseidon_rounds(
                    expression_values(current@, vals),
                    r as nat,
                    total,
                    half,
                    sb,
                    rows,
                    p,
                ) == expression_values(outputs@, vals) by {
                    lemma_satisfied_prefix(*builder, mid, vals);
                    lemma_satisfied_prefix(mid, before, vals);
                    let fl = round_is_full(r as nat, total, half);
                    let t = expression_values(current@, vals);
                    assert(sub_words(t, fl, sb, p) == expression_values(unmixed, vals));
                    assert(mix(rows, expression_values(unmixed, vals), p) == expression_values(prev, vals));
                }
            }
            round = r;
        }
        current
    }
}

impl<F: Field> MultiPermutation<F> for Poseidon<F> {
    open spec fn multi_permutation_wires(&self) -> nat {
        ((self.spec_num_rounds().full as nat) + (self.spec_num_rounds().partial as nat)) * (
        self.spec_width() * sbox_wires::<F>() + self.spec_width())
    }

    open spec fn spec_width(&self) -> nat {
        self.spec_width()
    }

    fn width(&self) -> (r: usize) {
        self.width
    }

    /// The rounds: in each, the S-box on every element (full rounds) or on the first (partial
    /// rounds), then the mix layer.
    fn permute(&self, builder: &mut GadgetBuilder<F>, inputs: &[Expression<F>]) -> (r: Vec<
        Expression<F>,
    >)
        ensures
            forall|vals: Map<u32, nat>|
                #![trigger final(builder).satisfied(vals)]
                final(builder).satisfied(vals) && valid_assignment(vals, F::modulus()) && is_prime(
                    F::modulus(),
                ) ==> expression_values(r@, vals) == poseidon_rounds(
                    expression_values(inputs@, vals),
                    0,
                    self.spec_total_rounds(),
                    self.spec_half_full_rounds(),
                    self.spec_sbox(),
                    self.spec_rows(),
                    F::modulus(),
                ),
    {
        self.rounds(builder, inputs)
    }

    /// The rounds taken back, last round first: in each, the inverse of the mix layer, then the
    /// inverse of the S-box on every element (full rounds) or on the first (partial rounds). The
    /// permutation maps the result back to `outputs`.
    fn inverse(&self, builder: &mut GadgetBuilder<F>, outputs: &[Expression<F>]) -> (r: Vec<
        Expression<F>,
    >)
        ensures
            forall|vals: Map<u32, nat>|
                #![trigger final(builder).satisfied(vals)]
                final(builder).satisfied(vals) && valid_assignment(vals, F::modulus()) && is_prime(
                    F::modulus(),
                ) ==> poseidon_rounds(
                    expression_values(r@, vals),
                    0,
                    self.spec_total_rounds(),
                    self.spec_half_full_rounds(),
                    self.spec_sbox(),
                    self.spec_rows(),
                    F::modulus(),
                ) == expression_values(outputs@, vals),
    {
        self.inverse_rounds(builder, outputs)
    }
}

impl<F: Field> Poseidon<F> {
    /// Poseidon's inverse undoes its permutation: where the mix layer is injective, the only
    /// vector of field elements that the rounds map to where they map `x` is `x` itself. (The
    /// permutation's result is the rounds applied to its inputs, and the inverse's result is a
    /// vector that the rounds map to its outputs.)
    pub proof fn lemma_inverse_undoes_permute(&self, x: Seq<nat>, y: Seq<nat>)
        requires
            is_prime(F::modulus()),
            sbox_usable(self.spec_sbox(), F::modulus()),
            mix_injective(self.spec_rows(), F::modulus()),
            self.spec_rows().len() > 0,
            field_vector(x, self.spec_rows().len(), F::modulus()),
            field_vector(y, self.spec_rows().len(), F::modulus()),
            poseidon_rounds(
                y,
                0,
                self.spec_total_rounds(),
                self.spec_half_full_rounds(),
                self.spec_sbox(),
                self.spec_rows(),
                F::modulus(),
            ) == poseidon_rounds(
                x,
                0,
                self.spec_total_rounds(),
                self.spec_half_full_rounds(),
                self.spec_sbox(),
                self.spec_rows(),
                F::modulus(),
            ),
        ensures
            y == x,
    {
        lemma_poseidon_rounds_injective(
            y,
            x,
            0,
            self.spec_total_rounds(),
            self.spec_half_full_rounds(),
            self.spec_sbox(),
            self.spec_rows(),
            F::modulus(),
        );
    }
}

/// Builds a `Poseidon` instance.
pub struct PoseidonBuilder<F: Field> {
    /// The size of the permutation, in field elements.
    width: usize,
    /// The number full and partial of rounds to use.
    num_rounds: Option<NumberOfRounds>,
    /// The S-box to apply in the sub words layer.
    sbox: Option<PoseidonSbox>,
    /// The desired (classical) security level, in bits.
    security_bits: Option<usize>,
    /// The MDS matrix to apply in the mix layer.
    mds_matrix: Option<MdsMatrix<F>>,
}

impl<F: Field> PoseidonBuilder<F> {
    pub closed spec fn spec_width(&self) -> nat {
        self.width as nat
    }

    pub closed spec fn spec_num_rounds(&self) -> Option<NumberOfRounds> {
        self.num_rounds
    }

    pub closed spec fn spec_sbox(&self) -> Option<PoseidonSbox> {
        self.sbox
    }

    pub closed spec fn spec_security_bits(&self) -> Option<usize> {
        self.security_bits
    }

    /// The rows of the MDS matrix, if one was given.
    pub closed spec fn spec_mds_rows(&self) -> Option<Seq<Seq<nat>>> {
        match self.mds_matrix {
            Some(m) => Some(m.spec_rows()),
            None => None,
        }
    }

    /// The number of columns of the MDS matrix, if one was given.
    pub closed spec fn spec_mds_cols(&self) -> Option<nat> {
        match self.mds_matrix {
            Some(m) => Some(m.spec_cols()),
            None => None,
        }
    }

    pub fn new(width: usize) -> (r: Self)
        ensures
            r.spec_width() == width,
            r.spec_num_rounds() is None,
            r.spec_sbox() is None,
            r.spec_security_bits() is None,
            r.spec_mds_rows() is None,
    {
        PoseidonBuilder { width, num_rounds: None, sbox: None, security_bits: None, mds_matrix: None }
    }

    pub fn sbox(&mut self, sbox: PoseidonSbox) -> (r: &mut Self)
        ensures
            r.spec_sbox() == Some(sbox),
            r.spec_width() == old(self).spec_width(),
            r.spec_num_rounds() == old(self).spec_num_rounds(),
            r.spec_security_bits() == old(self).spec_security_bits(),
            r.spec_mds_rows() == old(self).spec_mds_rows(),
            r.spec_mds_cols() == old(self).spec_mds_cols(),
            *final(self) == *final(r),
    {
        self.sbox = Some(sbox);
        self
    }

    pub fn num_rounds(&mut self, num_rounds: NumberOfRounds) -> (r: &mut Self)
        ensures
            r.spec_num_rounds() == Some(num_rounds),
            r.spec_width() == old(self).spec_width(),
            r.spec_sbox() == old(self).spec_sbox(),
            r.spec_security_bits() == old(self).spec_security_bits(),
            r.spec_mds_rows() == old(self).spec_mds_rows(),
            r.spec_mds_cols() == old(self).spec_mds_cols(),
            *final(self) == *final(r),
    {
        self.num_rounds = Some(num_rounds);
        self
    }

    pub fn security_bits(&mut self, security_bits: usize) -> (r: &mut Self)
        ensures
            r.spec_security_bits() == Some(security_bits),
            r.spec_width() == old(self).spec_width(),
            r.spec_sbox() == old(self).spec_sbox(),
            r.spec_num_rounds() == old(self).spec_num_rounds(),
            r.spec_mds_rows() == old(self).spec_mds_rows(),
            r.spec_mds_cols() == old(self).spec_mds_cols(),
            *final(self) == *final(r),
    {
        self.security_bits = Some(security_bits);
        self
    }

    pub fn mds_matrix(&mut self, mds_matrix: MdsMatrix<F>) -> (r: &mut Self)
        ensures
            r.spec_mds_rows() == Some(mds_matrix.spec_rows()),
            r.spec_mds_cols() == Some(mds_matrix.spec_cols()),
            r.spec_width() == old(self).spec_width(),
            r.spec_sbox() == old(self).spec_sbox(),
            r.spec_num_rounds() == old(self).spec_num_rounds(),
            r.spec_security_bits() == old(self).spec_security_bits(),
            *final(self) == *final(r),
    {
        self.mds_matrix = Some(mds_matrix);
        self
    }

    /// The S-box to use: the one given, or else the first of `x^3`, `x^5`, `1 / x` that is a
    /// permutation of `F`, as the paper advises.
    pub fn chosen_sbox(&self) -> (r: PoseidonSbox)
        requires
            self.spec_sbox() is None ==> default_sbox_defined(F::modulus()),
        ensures
            self.spec_sbox() matches Some(s) ==> r == s,
            self.spec_sbox() is None ==> r == default_sbox(F::modulus()),
            self.spec_sbox() is None && (F::modulus() - 1) as nat % 3 != 0 ==> r
                == PoseidonSbox::Exponentiation3,
            self.spec_sbox() is None && (F::modulus() - 1) as nat % 3 == 0 && (F::modulus() - 1) as nat
                % 5 != 0 ==> r == PoseidonSbox::Exponentiation5,
            self.spec_sbox() is None && (F::modulus() - 1) as nat % 3 == 0 && (F::modulus() - 1) as nat
                % 5 == 0 ==> r == PoseidonSbox::Inverse,
    {
        match self.sbox {
            Some(s) => s,
            None => {
                let largest = Element::<F>::largest_element();
                default_sbox_exec(&largest)
            },
        }
    }

    /// The number of elements permuted.
    pub fn width(&self) -> (r: usize)
        ensures
            r == self.spec_width(),
    {
        self.width
    }

    /// The number of rounds, if one was given.
    pub fn chosen_num_rounds(&self) -> (r: Option<NumberOfRounds>)
        ensures
            r == self.spec_num_rounds(),
    {
        self.num_rounds
    }

    /// The security level, if one was given.
    pub fn chosen_security_bits(&self) -> (r: Option<usize>)
        ensures
            r == self.spec_security_bits(),
    {
        self.security_bits
    }

    /// Builds the permutation. The MDS matrix must be given, square with one row per element, and not
    /// both the number of rounds and the security level. The
    /// number of rounds must be given: choosing it from the security level is a floating-point
    /// computation, which this library leaves to its caller, who passes the result to
    /// `build_with_rounds`.
    pub fn build(&self) -> (r: Poseidon<F>)
        requires
            self.spec_mds_rows() matches Some(rows) && rows.len() == self.spec_width(),
            self.spec_mds_cols() == Some(self.spec_width() as nat),
            !(self.spec_num_rounds() is Some && self.spec_security_bits() is Some),
            self.spec_num_rounds() matches Some(n) && n.full % 2 == 0 && n.full + n.partial
                <= usize::MAX,
            self.spec_sbox() matches Some(s) ==> sbox_usable(s, F::modulus()),
            self.spec_sbox() is None ==> default_sbox_defined(F::modulus()) && sbox_usable(
                default_sbox(F::modulus()),
                F::modulus(),
            ),
            self.spec_num_rounds() matches Some(n) && n.partial > 0 ==> self.spec_width() > 0,
        ensures
            r.spec_width() == self.spec_width(),
            r.spec_num_rounds() == self.spec_num_rounds()->Some_0,
            self.spec_sbox() matches Some(s) ==> r.spec_sbox() == s,
            self.spec_sbox() is None ==> r.spec_sbox() == default_sbox(F::modulus()),
    {
        let num_rounds = match self.num_rounds {
            Some(n) => n,
            None => {
                proof {
                    assert(false);
                }
                NumberOfRounds { full: 0, partial: 0 }
            },
        };
        self.assemble(num_rounds)
    }

    /// Builds the permutation with the given number of rounds, which the caller chose from the
    /// security level because none was given.
    pub fn build_with_rounds(&self, num_rounds: NumberOfRounds) -> (r: Poseidon<F>)
        requires
            self.spec_mds_rows() matches Some(rows) && rows.len() == self.spec_width(),
            self.spec_mds_cols() == Some(self.spec_width() as nat),
            self.spec_num_rounds() is None,
            num_rounds.full % 2 == 0 && num_rounds.full + num_rounds.partial <= usize::MAX,
            self.spec_sbox() matches Some(s) ==> sbox_usable(s, F::modulus()),
            self.spec_sbox() is None ==> default_sbox_defined(F::modulus()) && sbox_usable(
                default_sbox(F::modulus()),
                F::modulus(),
            ),
            num_rounds.partial > 0 ==> self.spec_width() > 0,
        ensures
            r.spec_width() == self.spec_width(),
            r.spec_num_rounds() == num_rounds,
            self.spec_sbox() matches Some(s) ==> r.spec_sbox() == s,
            self.spec_sbox() is None ==> r.spec_sbox() == default_sbox(F::modulus()),
    {
        self.assemble(num_rounds)
    }

    fn assemble(&self, num_rounds: NumberOfRounds) -> (r: Poseidon<F>)
        requires
            self.spec_mds_rows() matches Some(rows) && rows.len() == self.spec_width(),
            self.spec_mds_cols() == Some(self.spec_width() as nat),
            num_rounds.full % 2 == 0 && num_rounds.full + num_rounds.partial <= usize::MAX,
            self.spec_sbox() matches Some(s) ==> sbox_usable(s, F::modulus()),
            self.spec_sbox() is None ==> default_sbox_defined(F::modulus()) && sbox_usable(
                default_sbox(F::modulus()),
                F::modulus(),
            ),
            num_rounds.partial > 0 ==> self.spec_width() > 0,
        ensures
            r.spec_width() == self.spec_width(),
            r.spec_num_rounds() == num_rounds,
            self.spec_sbox() matches Some(s) ==> r.spec_sbox() == s,
            self.spec_sbox() is None ==> r.spec_sbox() == default_sbox(F::modulus()),
    {
        let sbox = self.chosen_sbox();
        let mds_matrix = match &self.mds_matrix {
            Some(m) => m.copy(),
            None => {
                proof {
                    assert(false);
                }
                MdsMatrix::new(vec![vec![Element::zero()]])
            },
        };
        Poseidon { width: self.width, num_rounds, sbox, mds_matrix }
    }
}

/// The S-box that the paper advises for `F_p`: `x^3` if `gcd(3, p - 1) = 1`, else `x^5` if
/// `gcd(5, p - 1) = 1`, else `1 / x`.
pub open spec fn default_sbox(p: nat) -> PoseidonSbox {
    if spec_gcd((p - 1) as nat, 3) == 1 {
        PoseidonSbox::Exponentiation3
    } else if spec_gcd((p - 1) as nat, 5) == 1 {
        PoseidonSbox::Exponentiation5
    } else {
        PoseidonSbox::Inverse
    }
}

/// `a` and the prime `d` (3 or 5) are coprime exactly when `d` does not divide `a`.
proof fn lemma_gcd_small_prime(a: nat, d: nat)
    requires
        d == 3 || d == 5,
    ensures
        spec_gcd(a, d) == 1 <==> a % d != 0,
{
    reveal_with_fuel(spec_gcd, 6);
    let r = a % d;
    assert(spec_gcd(a, d) == spec_gcd(d, r));
    if r == 0 {
        assert(spec_gcd(d, 0) == d);
    } else if d == 3 {
        assert(r == 1 || r == 2);
        assert(spec_gcd(3, 1) == 1);
        assert(spec_gcd(3, 2) == 1);
    } else {
        assert(r == 1 || r == 2 || r == 3 || r == 4);
        assert(spec_gcd(5, 1) == 1);
        assert(spec_gcd(5, 2) == 1);
        assert(spec_gcd(5, 3) == 1);
        assert(spec_gcd(5, 4) == 1);
    }
}

/// The default S-box for `F_p`: `x^3` when 3 does not divide `p - 1`; otherwise `x^5` when 5
/// does not divide `p - 1`; otherwise `1 / x`.
pub proof fn lemma_default_sbox_choice(p: nat)
    ensures
        (p - 1) as nat % 3 != 0 ==> default_sbox(p) == PoseidonSbox::Exponentiation3,
        (p - 1) as nat % 3 == 0 && (p - 1) as nat % 5 != 0 ==> default_sbox(p)
            == PoseidonSbox::Exponentiation5,
        (p - 1) as nat % 3 == 0 && (p - 1) as nat % 5 == 0 ==> default_sbox(p)
            == PoseidonSbox::Inverse,
{
    lemma_gcd_small_prime((p - 1) as nat, 3);
    lemma_gcd_small_prime((p - 1) as nat, 5);
}

/// The constants 3 and, when it is consulted, 5 are field elements.
pub open spec fn default_sbox_defined(p: nat) -> bool {
    &&& 3 < p
    &&& spec_gcd((p - 1) as nat, 3) != 1 ==> 5 < p
}

fn default_sbox_exec<F: Field>(largest: &Element<F>) -> (r: PoseidonSbox)
    requires
        largest@ == F::modulus() - 1,
        default_sbox_defined(F::modulus()),
    ensures
        r == default_sbox(F::modulus()),
        (F::modulus() - 1) as nat % 3 != 0 ==> r == PoseidonSbox::Exponentiation3,
        (F::modulus() - 1) as nat % 3 == 0 && (F::modulus() - 1) as nat % 5 != 0 ==> r
            == PoseidonSbox::Exponentiation5,
        (F::modulus() - 1) as nat % 3 == 0 && (F::modulus() - 1) as nat % 5 == 0 ==> r
            == PoseidonSbox::Inverse,
{
    proof {
        lemma_default_sbox_choice(F::modulus());
    }
    let three = Element::<F>::from_u128(3);
    if largest.gcd(&three).is_one() {
        PoseidonSbox::Exponentiation3
    } else {
        let five = Element::<F>::from_u128(5);
        if largest.gcd(&five).is_one() {
            PoseidonSbox::Exponentiation5
        } else {
            PoseidonSbox::Inverse
        }
    }
}

} // verus!
