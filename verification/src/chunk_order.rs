//! Arithmetic facts behind chunked comparisons: little-endian bit sums, the order of two bit
//! strings read chunk by chunk, and the mask that selects one chunk.

use vstd::arithmetic::power2::*;
use vstd::prelude::*;

use crate::binary_expression::weighted_sum;
use crate::field::{field_add, field_mul, field_sub};

verus! {

/// Every entry is 0 or 1.
pub open spec fn is_bit_seq(s: Seq<nat>) -> bool {
    forall|i: int| 0 <= i < s.len() ==> #[trigger] s[i] == 0 || s[i] == 1
}

/// The plain integer sum of the entries.
pub open spec fn int_sum(s: Seq<nat>) -> nat
    decreases s.len(),
{
    if s.len() == 0 {
        0
    } else {
        int_sum(s.drop_last()) + s.last()
    }
}

/// The `k`-th chunk of `c` entries; the last chunk may be shorter.
pub open spec fn chunk_of(s: Seq<nat>, c: nat, k: nat) -> Seq<nat> {
    s.subrange(
        (c * k) as int,
        if c * (k + 1) <= s.len() {
            (c * (k + 1)) as int
        } else {
            s.len() as int
        },
    )
}

/// The number of chunks of `c` entries needed to cover `n` entries.
pub open spec fn chunk_count(n: nat, c: nat) -> nat {
    ((n + c - 1) as nat) / c
}

/// The field sum of `m_i * (x_i - y_i)` over the first `i` indices.
pub open spec fn masked_sum(ms: Seq<nat>, xs: Seq<nat>, ys: Seq<nat>, i: int, p: nat) -> nat
    decreases i,
{
    if i <= 0 {
        0
    } else {
        field_add(
            masked_sum(ms, xs, ys, i - 1, p),
            field_mul(ms[i - 1], field_sub(xs[i - 1], ys[i - 1], p), p),
            p,
        )
    }
}

/// A bit sum splits into its low `k` bits and the rest, shifted by `k`.
pub proof fn lemma_weighted_sum_split(s: Seq<nat>, k: int)
    requires
        0 <= k <= s.len(),
    ensures
        weighted_sum(s) == weighted_sum(s.take(k)) + pow2(k as nat) * weighted_sum(s.skip(k)),
    decreases s.len(),
{
    if k == s.len() {
        assert(s.take(k) =~= s);
        assert(s.skip(k).len() == 0);
        assert(weighted_sum(s.skip(k)) == 0);
        assert(pow2(k as nat) * 0 == 0);
    } else {
        let d = s.drop_last();
        lemma_weighted_sum_split(d, k);
        assert(d.take(k) =~= s.take(k));
        assert(s.skip(k).drop_last() =~= d.skip(k));
        assert(s.skip(k).last() == s.last());
        let n = s.len();
        let e = (n - 1 - k) as nat;
        lemma_pow2_adds(k as nat, e);
        assert((k as nat) + e == (n - 1) as nat);
        let a = pow2(k as nat);
        let b = pow2(e);
        let w = weighted_sum(d.skip(k));
        let l = s.last();
        assert(weighted_sum(s) == weighted_sum(d) + pow2((n - 1) as nat) * l);
        assert(s.skip(k).len() == n - k);
        assert(weighted_sum(s.skip(k)) == w + b * l);
        assert(a * b == pow2((n - 1) as nat));
        assert(a * (w + b * l) == a * w + (a * b) * l) by (nonlinear_arith);
        assert(weighted_sum(d) == weighted_sum(s.take(k)) + a * w);
    }
}

/// A sequence of bits sums to less than `2^len`.
pub proof fn lemma_weighted_sum_bound(s: Seq<nat>)
    requires
        is_bit_seq(s),
    ensures
        weighted_sum(s) < pow2(s.len()),
    decreases s.len(),
{
    if s.len() == 0 {
        lemma2_to64();
    } else {
        let d = s.drop_last();
        assert(is_bit_seq(d)) by {
            assert forall|i: int| 0 <= i < d.len() implies #[trigger] d[i] == 0 || d[i] == 1 by {
                assert(d[i] == s[i]);
            }
        }
        lemma_weighted_sum_bound(d);
        assert(s.last() == s[s.len() - 1]);
        lemma_pow2_unfold(s.len());
        let w = pow2((s.len() - 1) as nat);
        assert(w * s.last() <= w) by (nonlinear_arith)
            requires
                s.last() <= 1,
        ;
    }
}

/// In `len + 1` bits, the top bit is set exactly when the sum reaches `2^len`.
pub proof fn lemma_weighted_sum_top(s: Seq<nat>)
    requires
        is_bit_seq(s),
        s.len() > 0,
    ensures
        weighted_sum(s) >= pow2((s.len() - 1) as nat) <==> s.last() == 1,
{
    let d = s.drop_last();
    assert(is_bit_seq(d)) by {
        assert forall|i: int| 0 <= i < d.len() implies #[trigger] d[i] == 0 || d[i] == 1 by {
            assert(d[i] == s[i]);
        }
    }
    lemma_weighted_sum_bound(d);
    assert(s.last() == s[s.len() - 1]);
    let w = pow2((s.len() - 1) as nat);
    assert(w * s.last() == if s.last() == 1 { w } else { 0 }) by (nonlinear_arith)
        requires
            s.last() == 0 || s.last() == 1,
    ;
}

/// A chunk of a bit sequence is itself a bit sequence.
pub proof fn lemma_bits_subrange(s: Seq<nat>, a: int, b: int)
    requires
        is_bit_seq(s),
        0 <= a <= b <= s.len(),
    ensures
        is_bit_seq(s.subrange(a, b)),
{
    assert forall|i: int| 0 <= i < b - a implies #[trigger] s.subrange(a, b)[i] == 0 || s.subrange(
        a,
        b,
    )[i] == 1 by {
        assert(s.subrange(a, b)[i] == s[a + i]);
    }
}

/// The bits from chunk `k` upwards are chunk `k` plus the bits above it, shifted by `c`.
proof fn lemma_high_part(s: Seq<nat>, c: nat, k: nat)
    requires
        c > 0,
        c * k < s.len(),
    ensures
        weighted_sum(s.skip((c * k) as int)) == weighted_sum(chunk_of(s, c, k)) + pow2(c)
            * weighted_sum(s.skip(if c * (k + 1) <= s.len() { (c * (k + 1)) as int } else { s.len() as int })),
{
    let t = s.skip((c * k) as int);
    assert(c * (k + 1) == c * k + c) by (nonlinear_arith);
    if c * (k + 1) <= s.len() {
        lemma_weighted_sum_split(t, c as int);
        assert(t.take(c as int) =~= chunk_of(s, c, k));
        assert(t.skip(c as int) =~= s.skip((c * (k + 1)) as int));
    } else {
        assert(t =~= chunk_of(s, c, k));
        assert(s.skip(s.len() as int).len() == 0);
        assert(weighted_sum(s.skip(s.len() as int)) == 0);
        assert(pow2(c) * 0 == 0);
    }
}

/// The bits from chunk `k` upwards agree in value when every chunk from `k` upwards does.
pub proof fn lemma_equal_high_parts(x: Seq<nat>, y: Seq<nat>, c: nat, k: nat)
    requires
        c > 0,
        x.len() == y.len(),
        forall|i: nat|
            k <= i < chunk_count(x.len(), c) ==> #[trigger] weighted_sum(chunk_of(x, c, i))
                == weighted_sum(chunk_of(y, c, i)),
    ensures
        weighted_sum(x.skip(if c * k <= x.len() { (c * k) as int } else { x.len() as int }))
            == weighted_sum(y.skip(if c * k <= y.len() { (c * k) as int } else { y.len() as int })),
    decreases x.len() + c - c * k,
{
    let n = x.len();
    if c * k >= n {
        let e = if c * k <= n { (c * k) as int } else { n as int };
        assert(x.skip(e).len() == 0);
        assert(y.skip(e).len() == 0);
    } else {
        lemma_chunk_index_bound(n, c, k);
        lemma_high_part(x, c, k);
        lemma_high_part(y, c, k);
        assert(c * (k + 1) == c * k + c) by (nonlinear_arith);
        lemma_equal_high_parts(x, y, c, k + 1);
        assert(weighted_sum(chunk_of(x, c, k)) == weighted_sum(chunk_of(y, c, k)));
    }
}

/// A chunk that starts inside the sequence has an index below the chunk count.
proof fn lemma_chunk_index_bound(n: nat, c: nat, k: nat)
    requires
        c > 0,
        c * k < n,
    ensures
        k < chunk_count(n, c),
{
    let m = (n + c - 1) as nat;
    vstd::arithmetic::div_mod::lemma_fundamental_div_mod(m as int, c as int);
    let q = m / c;
    let r = m % c;
    assert(k < q) by (nonlinear_arith)
        requires
            c * k < n,
            m == c * q + r,
            r < c,
            m == n + c - 1,
            c > 0,
    ;
}

/// A chunk whose index is below the chunk count starts inside the sequence.
pub proof fn lemma_chunk_start(n: nat, c: nat, j: nat)
    requires
        c > 0,
        j < chunk_count(n, c),
    ensures
        c * j < n,
{
    let m = (n + c - 1) as nat;
    vstd::arithmetic::div_mod::lemma_fundamental_div_mod(m as int, c as int);
    let q = m / c;
    let r = m % c;
    assert(c * j < n) by (nonlinear_arith)
        requires
            j < q,
            m == c * q + r,
            r >= 0,
            m == n + c - 1,
            c > 0,
    ;
}

/// Two bit strings of one length compare as their most significant differing chunk does: if
/// every chunk above `j` agrees and chunk `j` of `x` is below chunk `j` of `y`, then `x < y`.
pub proof fn lemma_chunk_order(x: Seq<nat>, y: Seq<nat>, c: nat, j: nat)
    requires
        c > 0,
        x.len() == y.len(),
        is_bit_seq(x),
        is_bit_seq(y),
        j < chunk_count(x.len(), c),
        weighted_sum(chunk_of(x, c, j)) < weighted_sum(chunk_of(y, c, j)),
        forall|i: nat|
            j < i < chunk_count(x.len(), c) ==> #[trigger] weighted_sum(chunk_of(x, c, i))
                == weighted_sum(chunk_of(y, c, i)),
    ensures
        weighted_sum(x) < weighted_sum(y),
{
    let n = x.len();
    let lo = (c * j) as int;
    // The chunk index is in range, so the chunk starts inside the sequence.
    lemma_chunk_start(n, c, j);
    lemma_high_part(x, c, j);
    lemma_high_part(y, c, j);
    assert(c * (j + 1) == c * j + c) by (nonlinear_arith);
    lemma_equal_high_parts(x, y, c, j + 1);
    let hx = weighted_sum(x.skip(lo));
    let hy = weighted_sum(y.skip(lo));
    assert(hx < hy) by {
        let rest = weighted_sum(x.skip(if c * (j + 1) <= n { (c * (j + 1)) as int } else { n as int }));
        let w = pow2(c);
        let a = weighted_sum(chunk_of(x, c, j));
        let b = weighted_sum(chunk_of(y, c, j));
        assert(a + w * rest < b + w * rest);
    }
    lemma_weighted_sum_split(x, lo);
    lemma_weighted_sum_split(y, lo);
    lemma_bits_subrange(x, 0, lo);
    assert(x.take(lo) =~= x.subrange(0, lo));
    lemma_weighted_sum_bound(x.take(lo));
    let w = pow2(lo as nat);
    let lx = weighted_sum(x.take(lo));
    let ly = weighted_sum(y.take(lo));
    assert(lx + w * hx < ly + w * hy) by (nonlinear_arith)
        requires
            lx < w,
            hx < hy,
            ly >= 0,
    ;
}

/// The integer sum of a prefix one longer adds the next entry.
pub proof fn lemma_int_sum_step(s: Seq<nat>, i: int)
    requires
        0 <= i < s.len(),
    ensures
        int_sum(s.take(i + 1)) == int_sum(s.take(i)) + s[i],
{
    assert(s.take(i + 1).drop_last() =~= s.take(i));
}

/// Prefix sums never decrease.
proof fn lemma_int_sum_mono(s: Seq<nat>, i: int, k: int)
    requires
        0 <= i <= k <= s.len(),
    ensures
        int_sum(s.take(i)) <= int_sum(s.take(k)),
    decreases k - i,
{
    if i < k {
        lemma_int_sum_step(s, k - 1);
        lemma_int_sum_mono(s, i, k - 1);
    }
}

/// The integer sum of bits is at most their number.
proof fn lemma_int_sum_bits(s: Seq<nat>)
    requires
        is_bit_seq(s),
    ensures
        int_sum(s) <= s.len(),
    decreases s.len(),
{
    if s.len() > 0 {
        let d = s.drop_last();
        assert forall|i: int| 0 <= i < d.len() implies #[trigger] d[i] == 0 || d[i] == 1 by {
            assert(d[i] == s[i]);
        }
        lemma_int_sum_bits(d);
        assert(s.last() == s[s.len() - 1]);
    }
}

/// Multiplying a field element by 1 leaves it unchanged.
proof fn lemma_field_mul_one(d: nat, p: nat)
    requires
        d < p,
    ensures
        field_mul(1, d, p) == d,
{
    assert(1 * d == d) by (nonlinear_arith);
    vstd::arithmetic::div_mod::lemma_small_mod(d, p);
}

/// Walking the prefixes of a mask whose prefix sums stay at most 1: while the sum is 0 no bit was
/// set and the masked sum is 0; once it is 1, exactly one bit `j` was set and the masked sum is
/// `x_j - y_j`.
proof fn lemma_mask_prefix(ms: Seq<nat>, xs: Seq<nat>, ys: Seq<nat>, p: nat, i: int)
    requires
        1 < p,
        ms.len() == xs.len(),
        ms.len() == ys.len(),
        0 <= i <= ms.len(),
        is_bit_seq(ms),
        int_sum(ms.take(i)) <= 1,
    ensures
        masked_sum(ms, xs, ys, i, p) < p,
        int_sum(ms.take(i)) == 0 ==> masked_sum(ms, xs, ys, i, p) == 0 && forall|k: int|
            0 <= k < i ==> #[trigger] ms[k] == 0,
        int_sum(ms.take(i)) == 1 ==> exists|j: int|
            0 <= j < i && #[trigger] ms[j] == 1 && masked_sum(ms, xs, ys, i, p) == field_sub(
                xs[j],
                ys[j],
                p,
            ),
    decreases i,
{
    if i == 0 {
        assert(ms.take(0).len() == 0);
    } else {
        lemma_int_sum_step(ms, i - 1);
        lemma_mask_prefix(ms, xs, ys, p, i - 1);
        let prev = masked_sum(ms, xs, ys, i - 1, p);
        let d = field_sub(xs[i - 1], ys[i - 1], p);
        if ms[i - 1] == 0 {
            assert(field_mul(0, d, p) == 0) by {
                vstd::arithmetic::div_mod::lemma_small_mod(0, p);
            }
            vstd::arithmetic::div_mod::lemma_small_mod(prev, p);
            if int_sum(ms.take(i)) == 1 {
                let j = choose|j: int|
                    0 <= j < i - 1 && #[trigger] ms[j] == 1 && masked_sum(ms, xs, ys, i - 1, p)
                        == field_sub(xs[j], ys[j], p);
                assert(ms[j] == 1);
            }
        } else {
            assert(d < p);
            lemma_field_mul_one(d, p);
            vstd::arithmetic::div_mod::lemma_small_mod(d, p);
            assert(ms[i - 1] == 1);
        }
    }
}

/// A mask of bits whose total is 0 or 1 (modulo a `p` above its length) selects at most one chunk.
/// If the running totals times the chunk differences vanish, every chunk above the selected one
/// agrees; and the masked sum of differences is that chunk's difference, or 0 if none is selected.
pub proof fn lemma_mask_select(ms: Seq<nat>, xs: Seq<nat>, ys: Seq<nat>, p: nat) -> (j: int)
    requires
        2 < p,
        ms.len() == xs.len(),
        ms.len() == ys.len(),
        ms.len() < p,
        is_bit_seq(ms),
        forall|i: int| 0 <= i < xs.len() ==> #[trigger] xs[i] < p,
        forall|i: int| 0 <= i < ys.len() ==> #[trigger] ys[i] < p,
        int_sum(ms) % p <= 1,
        forall|k: int|
            1 <= k < ms.len() ==> field_mul(
                int_sum(#[trigger] ms.take(k)) % p,
                field_sub(xs[k], ys[k], p),
                p,
            ) == 0,
    ensures
        -1 <= j < ms.len(),
        j == -1 ==> masked_sum(ms, xs, ys, ms.len() as int, p) == 0,
        j >= 0 ==> masked_sum(ms, xs, ys, ms.len() as int, p) == field_sub(xs[j], ys[j], p),
        j >= 0 ==> forall|k: int| j < k < ms.len() ==> #[trigger] xs[k] == ys[k],
{
    let n = ms.len() as int;
    lemma_int_sum_bits(ms);
    vstd::arithmetic::div_mod::lemma_small_mod(int_sum(ms), p);
    assert(ms.take(n) =~= ms);
    lemma_mask_prefix(ms, xs, ys, p, n);
    if int_sum(ms) == 0 {
        -1
    } else {
        let j = choose|j: int|
            0 <= j < n && #[trigger] ms[j] == 1 && masked_sum(ms, xs, ys, n, p) == field_sub(
                xs[j],
                ys[j],
                p,
            );
        assert forall|k: int| j < k < n implies #[trigger] xs[k] == ys[k] by {
            lemma_int_sum_step(ms, j);
            lemma_int_sum_mono(ms, 0, j);
            lemma_int_sum_mono(ms, j + 1, k);
            lemma_int_sum_mono(ms, k, n);
            assert(ms.take(0).len() == 0);
            assert(int_sum(ms.take(k)) == 1);
            vstd::arithmetic::div_mod::lemma_small_mod(1, p);
            let d = field_sub(xs[k], ys[k], p);
            assert(d < p);
            lemma_field_mul_one(d, p);
            assert(d == 0);
            let diff = xs[k] - ys[k];
            vstd::arithmetic::div_mod::lemma_fundamental_div_mod(diff, p as int);
            let q = diff / (p as int);
            assert(diff == 0) by (nonlinear_arith)
                requires
                    diff == (p as int) * q + diff % (p as int),
                    diff % (p as int) == 0,
                    -(p as int) < diff < p,
            ;
        }
        j
    }
}

} // verus!
