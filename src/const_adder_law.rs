//! What the power-of-two adder does to the value of its register.
use crate::circuits::{
    bit_of, carry_gate, carry_ops, const_adder_ops, fits, power_adder_ops,
};
use crate::error::QitError;
use crate::gates::{
    bit, claim, controls_set, flip, image, image_list, leaf_claims, reversed_list, schedule,
    schedule_list, lemma_image_cx, lemma_image_ccx,
    lemma_flip_bit, lemma_image_prefix, lemma_image_x, qubits_in_range, Op,
};
use crate::reversal::{lemma_image_list_append, lemma_reversed_list_undoes};
use vstd::arithmetic::div_mod::*;
use vstd::arithmetic::power2::*;
use vstd::bits::lemma_u64_shr_is_div;
use vstd::prelude::*;

verus! {

/// The value of the register `b` in the basis string `k`, least significant
/// qubit first.
pub open spec fn reg_value(k: u64, b: Seq<usize>) -> nat
    decreases b.len(),
{
    if b.len() == 0 {
        0
    } else {
        reg_value(k, b.drop_last()) + if bit(k, b.last()) {
            pow2((b.len() - 1) as nat)
        } else {
            0
        }
    }
}

/// Whether every qubit of `b` lies below 64.
pub open spec fn in_range(b: Seq<usize>) -> bool {
    forall|i: int| 0 <= i < b.len() ==> #[trigger] b[i] < 64
}

/// Whether the qubits `b[m .. p]` are all 1 in `k`: the carry into
/// position `p` of an increment at position `m`.
pub open spec fn carry_in(k: u64, b: Seq<usize>, m: int, p: int) -> bool {
    forall|j: int| m <= j < p ==> bit(k, #[trigger] b[j])
}

proof fn lemma_image_carry_gate(b: Seq<usize>, m: int, i: int, k: u64)
    requires
        0 <= m < i < b.len(),
        in_range(b),
    ensures
        image(carry_gate(b, m, i), k) == Ok::<u64, QitError>(
            if carry_in(k, b, m, i) {
                flip(k, b[i])
            } else {
                k
            },
        ),
{
    let cs = b.subrange(m, i);
    let t = b[i];
    assert(controls_set(k, cs) == carry_in(k, b, m, i)) by {
        if controls_set(k, cs) {
            assert forall|j: int| m <= j < i implies bit(k, #[trigger] b[j]) by {
                assert(cs[j - m] == b[j]);
            }
        }
        if carry_in(k, b, m, i) {
            assert forall|j: int| 0 <= j < cs.len() implies bit(k, #[trigger] cs[j]) by {
                assert(cs[j] == b[j + m]);
            }
        }
    }
    if cs.len() == 1 {
        lemma_image_cx(cs[0], t, k);
        assert(controls_set(k, cs) == bit(k, cs[0])) by {
            if bit(k, cs[0]) {
                assert forall|j: int| 0 <= j < cs.len() implies bit(k, #[trigger] cs[j]) by {}
            }
        }
    } else if cs.len() == 2 {
        lemma_image_ccx(cs[0], cs[1], t, k);
        assert(controls_set(k, cs) == (bit(k, cs[0]) && bit(k, cs[1]))) by {
            if bit(k, cs[0]) && bit(k, cs[1]) {
                assert forall|j: int| 0 <= j < cs.len() implies bit(k, #[trigger] cs[j]) by {}
            }
        }
    } else {
        let qs = cs.push(t);
        assert(leaf_claims(Op::CNX(cs, t)) == qs);
        assert(qs.drop_last() =~= cs);
        assert forall|j: int| 0 <= j < qs.len() implies #[trigger] qs[j] < 64 by {
            if j < cs.len() {
                assert(qs[j] == b[j + m]);
            }
        }
    }
}

/// After the carry gates for the positions above `lo`, each of those
/// positions holds its old bit inverted exactly when the carry reaches it;
/// every other qubit is unchanged.
pub open spec fn carried(k: u64, k2: u64, b: Seq<usize>, m: int, lo: int) -> bool {
    &&& forall|p: int|
        lo < p < b.len() ==> #[trigger] bit(k2, b[p]) == (bit(k, b[p]) != carry_in(k, b, m, p))
    &&& forall|q: usize|
        q < 64 && !b.subrange(lo + 1, b.len() as int).contains(q) ==> #[trigger] bit(k2, q) == bit(
            k,
            q,
        )
}

proof fn lemma_carries(b: Seq<usize>, m: int, kk: int, k: u64)
    requires
        0 <= m < b.len(),
        m + 1 <= kk <= b.len(),
        in_range(b),
        b.no_duplicates(),
    ensures
        image_list(carry_ops(b, m, kk), k) matches Ok(k2) && carried(
            k,
            k2,
            b,
            m,
            b.len() - kk + m,
        ),
    decreases kk,
{
    let len = b.len() as int;
    if kk == m + 1 {
        assert(carry_ops(b, m, kk) == Seq::<Op>::empty());
        assert forall|q: usize| q < 64 && !b.subrange(len - kk + m + 1, len).contains(q) implies #[trigger] bit(k, q) == bit(k, q) by {}
    } else {
        lemma_carries(b, m, kk - 1, k);
        let i = len - (kk - 1) + m;
        let prev = carry_ops(b, m, kk - 1);
        let k1 = image_list(prev, k)->Ok_0;
        let g = carry_gate(b, m, i);
        assert((prev + seq![g]).drop_last() =~= prev);
        assert(carry_ops(b, m, kk) == prev + seq![g]);
        lemma_image_carry_gate(b, m, i, k1);
        // the controls b[m .. i] are untouched so far
        assert(carry_in(k1, b, m, i) == carry_in(k, b, m, i)) by {
            assert forall|j: int| m <= j < i implies bit(k1, #[trigger] b[j]) == bit(k, b[j]) by {
                if b.subrange(i + 1, len).contains(b[j]) {
                    let w = choose|w: int| 0 <= w < len - (i + 1) && #[trigger] b.subrange(i + 1, len)[w] == b[j];
                    assert(b[w + i + 1] == b[j]);
                }
            }
        }
        let c = carry_in(k, b, m, i);
        let k2 = if c { flip(k1, b[i]) } else { k1 };
        assert(!b.subrange(i + 1, len).contains(b[i])) by {
            if b.subrange(i + 1, len).contains(b[i]) {
                let w = choose|w: int| 0 <= w < len - (i + 1) && #[trigger] b.subrange(i + 1, len)[w] == b[i];
                assert(b[w + i + 1] == b[i]);
            }
        }
        assert forall|p: int| i - 1 < p < len implies #[trigger] bit(k2, b[p]) == (bit(k, b[p])
            != carry_in(k, b, m, p)) by {
            lemma_flip_bit(k1, b[i], b[p]);
            if p > i {
                assert(b[p] != b[i]);
            }
        }
        assert forall|q: usize| q < 64 && !b.subrange(i, len).contains(q) implies #[trigger] bit(
            k2,
            q,
        ) == bit(k, q) by {
            lemma_flip_bit(k1, b[i], q);
            assert(b.subrange(i, len)[0] == b[i]);
            if b.subrange(i + 1, len).contains(q) {
                let w = choose|w: int| 0 <= w < len - (i + 1) && #[trigger] b.subrange(i + 1, len)[w] == q;
                assert(b.subrange(i, len)[w + 1] == q);
            }
        }
        assert(len - kk + m + 1 == i);
    }
}

/// A register of `len` qubits holds a value below `2^len`.
pub proof fn lemma_reg_bound(k: u64, b: Seq<usize>)
    ensures
        reg_value(k, b) < pow2(b.len() as nat),
    decreases b.len(),
{
    if b.len() == 0 {
        lemma2_to64();
    } else {
        lemma_reg_bound(k, b.drop_last());
        lemma_pow2_unfold(b.len() as nat);
    }
}

/// The value of a prefix of a register, one qubit longer.
pub proof fn lemma_reg_prefix(k: u64, b: Seq<usize>, i: int)
    requires
        0 <= i < b.len(),
    ensures
        reg_value(k, b.subrange(0, i + 1)) == reg_value(k, b.subrange(0, i)) + if bit(k, b[i]) {
            pow2(i as nat)
        } else {
            0
        },
{
    assert(b.subrange(0, i + 1).drop_last() =~= b.subrange(0, i));
}

/// The running sum of an increment at position `m`, up to position `i`.
proof fn lemma_increment_prefix(k: u64, k3: u64, b: Seq<usize>, m: int, i: int)
    requires
        0 <= m < b.len(),
        0 <= i <= b.len(),
        forall|p: int|
            m <= p < b.len() ==> #[trigger] bit(k3, b[p]) == (bit(k, b[p]) != carry_in(k, b, m, p)),
        forall|p: int| 0 <= p < m ==> #[trigger] bit(k3, b[p]) == bit(k, b[p]),
    ensures
        reg_value(k3, b.subrange(0, i)) + (if i >= m && carry_in(k, b, m, i) {
            pow2(i as nat)
        } else {
            0
        }) == reg_value(k, b.subrange(0, i)) + (if i >= m {
            pow2(m as nat)
        } else {
            0
        }),
    decreases i,
{
    if i == 0 {
        assert(b.subrange(0, 0) =~= Seq::<usize>::empty());
        if m == 0 {
            lemma2_to64();
        }
    } else {
        let j = i - 1;
        lemma_increment_prefix(k, k3, b, m, j);
        lemma_reg_prefix(k, b, j);
        lemma_reg_prefix(k3, b, j);
        if j >= m {
            lemma_pow2_unfold(i as nat);
            assert(carry_in(k, b, m, i) == (carry_in(k, b, m, j) && bit(k, b[j]))) by {
                if carry_in(k, b, m, j) && bit(k, b[j]) {
                    assert forall|q: int| m <= q < i implies bit(k, #[trigger] b[q]) by {
                        if q < j {
                            assert(bit(k, b[q]));
                        }
                    }
                }
            }
        } else if i == m {
            lemma2_to64();
        }
    }
}

/// An increment at position `m` of the register `b` adds `2^m` to its value,
/// modulo `2^len`.
proof fn lemma_increment_value(k: u64, k3: u64, b: Seq<usize>, m: int)
    requires
        0 <= m < b.len(),
        forall|p: int|
            m <= p < b.len() ==> #[trigger] bit(k3, b[p]) == (bit(k, b[p]) != carry_in(k, b, m, p)),
        forall|p: int| 0 <= p < m ==> #[trigger] bit(k3, b[p]) == bit(k, b[p]),
    ensures
        reg_value(k3, b) == (reg_value(k, b) + pow2(m as nat)) % pow2(b.len() as nat),
{
    let len = b.len() as int;
    lemma_increment_prefix(k, k3, b, m, len);
    assert(b.subrange(0, len) =~= b);
    lemma_reg_bound(k3, b);
    lemma_reg_bound(k, b);
    lemma_pow2_strictly_increases(m as nat, len as nat);
    let total = reg_value(k, b) + pow2(m as nat);
    let top = pow2(len as nat);
    if carry_in(k, b, m, len) {
        lemma_fundamental_div_mod_converse_mod(total as int, top as int, 1, reg_value(k3, b) as int);
    } else {
        lemma_small_mod(total as nat, top as nat);
    }
}

/// The power-of-two adder adds `2^m` to the value of the register `b`,
/// modulo `2^len`, and leaves every qubit outside `b` alone.
pub proof fn lemma_power_adder_adds(b: Seq<usize>, m: int, k: u64)
    requires
        0 <= m < b.len(),
        in_range(b),
        b.no_duplicates(),
    ensures
        image_list(power_adder_ops(b, m), k) matches Ok(k2) && reg_value(k2, b) == (reg_value(k, b)
            + pow2(m as nat)) % pow2(b.len() as nat) && forall|q: usize|
            q < 64 && !b.contains(q) ==> #[trigger] bit(k2, q) == bit(k, q),
{
    let len = b.len() as int;
    lemma_carries(b, m, len, k);
    let prev = carry_ops(b, m, len);
    let k2 = image_list(prev, k)->Ok_0;
    let g = Op::X(b[m]);
    assert((prev + seq![g]).drop_last() =~= prev);
    lemma_image_x(b[m], k2);
    let k3 = flip(k2, b[m]);
    assert(image_list(power_adder_ops(b, m), k) == Ok::<u64, QitError>(k3));
    assert(!b.subrange(m + 1, len).contains(b[m])) by {
        if b.subrange(m + 1, len).contains(b[m]) {
            let w = choose|w: int| 0 <= w < len - (m + 1) && #[trigger] b.subrange(m + 1, len)[w] == b[m];
            assert(b[w + m + 1] == b[m]);
        }
    }
    assert forall|p: int| m <= p < len implies #[trigger] bit(k3, b[p]) == (bit(k, b[p])
        != carry_in(k, b, m, p)) by {
        lemma_flip_bit(k2, b[m], b[p]);
        if p > m {
            assert(b[p] != b[m]);
        }
    }
    assert forall|p: int| 0 <= p < m implies #[trigger] bit(k3, b[p]) == bit(k, b[p]) by {
        lemma_flip_bit(k2, b[m], b[p]);
        assert(b[p] != b[m]);
        if b.subrange(m + 1, len).contains(b[p]) {
            let w = choose|w: int| 0 <= w < len - (m + 1) && #[trigger] b.subrange(m + 1, len)[w] == b[p];
            assert(b[w + m + 1] == b[p]);
        }
    }
    lemma_increment_value(k, k3, b, m);
    assert forall|q: usize| q < 64 && !b.contains(q) implies #[trigger] bit(k3, q) == bit(k, q) by {
        lemma_flip_bit(k2, b[m], q);
        if b.subrange(m + 1, len).contains(q) {
            let w = choose|w: int| 0 <= w < len - (m + 1) && #[trigger] b.subrange(m + 1, len)[w] == q;
            assert(b[w + m + 1] == q);
        }
    }
}

proof fn lemma_low_bits(a: usize, i: nat)
    ensures
        (a as int) % (pow2(i + 1) as int) == (a as int) % (pow2(i) as int) + if bit_of(a, i as int) {
            pow2(i) as int
        } else {
            0
        },
{
    let p = pow2(i) as int;
    lemma_pow2_pos(i);
    lemma_pow2_unfold(i + 1);
    assert(pow2(i + 1) as int == p * 2);
    lemma_breakdown(a as int, p, 2);
    let q = (a as int) / p;
    assert((a as int) % (p * 2) == p * (q % 2) + (a as int) % p);
    if i < 64 {
        let x = a as u64;
        lemma_u64_shr_is_div(x, i as u64);
        let s = x >> (i as u64);
        assert(s as int == q);
        assert((s & 1 == 1) == (s % 2 == 1)) by (bit_vector);
        assert(s % 2 == 0 || s % 2 == 1);
        assert(bit_of(a, i as int) == (s & 1 == 1));
        if s % 2 == 1 {
            assert(q % 2 == 1);
            assert(p * 1 == p);
        } else {
            assert(q % 2 == 0);
            assert(p * 0 == 0);
        }
    } else {
        lemma2_to64();
        if i > 64 {
            lemma_pow2_strictly_increases(64, i);
        }
        assert((a as int) < p);
        lemma_basic_div(a as int, p);
        assert(q == 0);
        assert(p * (q % 2) == 0);
    }
}

/// The constant adder built from the bits of `a` below `kk` adds
/// `a mod 2^kk` to the value of the register `b`, modulo `2^len`, and leaves
/// every qubit outside `b` alone.
pub proof fn lemma_const_adder_adds(b: Seq<usize>, a: usize, kk: int, k: u64)
    requires
        0 <= kk <= b.len(),
        in_range(b),
        b.no_duplicates(),
    ensures
        image_list(const_adder_ops(b, a, kk), k) matches Ok(k2) && reg_value(k2, b) == (reg_value(
            k,
            b,
        ) + (a as int) % (pow2(kk as nat) as int)) % (pow2(b.len() as nat) as int) && forall|
            q: usize,
        | q < 64 && !b.contains(q) ==> #[trigger] bit(k2, q) == bit(k, q),
    decreases kk,
{
    let top = pow2(b.len() as nat) as int;
    lemma_pow2_pos(b.len() as nat);
    if kk == 0 {
        lemma2_to64();
        lemma_reg_bound(k, b);
        lemma_small_mod(reg_value(k, b), top as nat);
        assert(const_adder_ops(b, a, kk) == Seq::<Op>::empty());
    } else {
        let j = kk - 1;
        lemma_const_adder_adds(b, a, j, k);
        let prev = const_adder_ops(b, a, j);
        let k1 = image_list(prev, k)->Ok_0;
        lemma_low_bits(a, j as nat);
        let low = (a as int) % (pow2(j as nat) as int);
        if bit_of(a, j) {
            let more = power_adder_ops(b, j);
            lemma_image_list_append(prev, more, k);
            lemma_power_adder_adds(b, j, k1);
            let r = reg_value(k, b) as int;
            assert(((r + low) % top + pow2(j as nat) as int) % top == (r + low + pow2(j as nat) as int) % top) by {
                lemma_add_mod_noop(r + low, pow2(j as nat) as int, top);
                lemma_mod_twice(pow2(j as nat) as int, top);
                lemma_add_mod_noop((r + low) % top, pow2(j as nat) as int, top);
                lemma_mod_twice(r + low, top);
            }
        } else {
            assert(prev + Seq::<Op>::empty() =~= prev);
        }
    }
}

proof fn lemma_fits_below(a: usize, w: int)
    requires
        0 <= w,
        fits(a, w),
    ensures
        (a as int) % (pow2(w as nat) as int) == a as int,
{
    lemma_pow2_pos(w as nat);
    if w < 64 {
        let p = pow2(w as nat) as int;
        lemma_u64_shr_is_div(a as u64, w as u64);
        assert((a as int) / p == 0);
        lemma_fundamental_div_mod(a as int, p);
        assert(p * 0 == 0);
        lemma_mod_bound(a as int, p);
    } else {
        lemma2_to64();
        if w > 64 {
            lemma_pow2_strictly_increases(64, w as nat);
        }
    }
    assert((a as int) < pow2(w as nat) as int);
    lemma_small_mod(a as nat, pow2(w as nat));
}

/// On every basis string, `gs` adds `a_const` to the value of the register
/// `b` modulo `2^len` and leaves every qubit outside `b` as it was.
pub open spec fn adds_constant(gs: Seq<Op>, b: Seq<usize>, a_const: int) -> bool {
    forall|k: u64|
        #[trigger] image_list(gs, k) matches Ok(k2) && reg_value(k2, b) == (reg_value(k, b)
            + a_const) % (pow2(b.len() as nat) as int) && forall|q: usize|
            q < 64 && !b.contains(q) ==> #[trigger] bit(k2, q) == bit(k, q)
}

/// The power-of-two adder meets `adds_constant` for `2^m`.
pub proof fn lemma_power_adder_meets(b: Seq<usize>, m: int)
    requires
        0 <= m < b.len(),
        in_range(b),
        b.no_duplicates(),
    ensures
        adds_constant(power_adder_ops(b, m), b, pow2(m as nat) as int),
{
    assert forall|k: u64| #[trigger] image_list(power_adder_ops(b, m), k) matches Ok(k2)
        && reg_value(k2, b) == (reg_value(k, b) + pow2(m as nat) as int) % (pow2(b.len() as nat) as int)
        && forall|q: usize| q < 64 && !b.contains(q) ==> #[trigger] bit(k2, q) == bit(k, q) by {
        lemma_power_adder_adds(b, m, k);
    }
}

/// The constant adder over the bits of `a_const` below `kk` meets
/// `adds_constant` for `a_const` when `a_const < 2^kk`.
pub proof fn lemma_const_adder_meets(b: Seq<usize>, a_const: usize, kk: int)
    requires
        0 <= kk <= b.len(),
        in_range(b),
        b.no_duplicates(),
        fits(a_const, kk),
    ensures
        adds_constant(const_adder_ops(b, a_const, kk), b, a_const as int),
{
    lemma_fits_below(a_const, kk);
    assert forall|k: u64| #[trigger] image_list(const_adder_ops(b, a_const, kk), k) matches Ok(k2)
        && reg_value(k2, b) == (reg_value(k, b) + a_const as int) % (pow2(b.len() as nat) as int)
        && forall|q: usize| q < 64 && !b.contains(q) ==> #[trigger] bit(k2, q) == bit(k, q) by {
        lemma_const_adder_adds(b, a_const, kk, k);
    }
}

/// Whether every gate of `gs` is a NOT, controlled or not, whose qubits are
/// distinct and below `n`.
pub open spec fn valid_nots(gs: Seq<Op>, n: usize) -> bool {
    forall|i: int|
        0 <= i < gs.len() ==> {
            let g = #[trigger] gs[i];
            &&& (g is X || g is CX || g is CCX || g is CNX)
            &&& leaf_claims(g).no_duplicates()
            &&& forall|j: int| 0 <= j < leaf_claims(g).len() ==> #[trigger] leaf_claims(g)[j] < n
        }
}

proof fn lemma_claim_distinct(qs: Seq<usize>, n: usize)
    requires
        n <= 64,
        qs.no_duplicates(),
        forall|j: int| 0 <= j < qs.len() ==> #[trigger] qs[j] < n,
    ensures
        claim(0, qs, n) matches Ok(m) && forall|q: usize| q < 64 ==> (#[trigger] bit(m, q) == qs.contains(q)),
    decreases qs.len(),
{
    if qs.len() == 0 {
        assert forall|q: usize| q < 64 implies (#[trigger] bit(0, q) == qs.contains(q)) by {
            let qq = q as u64;
            assert((0u64 >> qq) & 1 != 1) by (bit_vector);
        }
    } else {
        let init = qs.drop_last();
        let last = qs.last();
        lemma_claim_distinct(init, n);
        let m = claim(0, init, n)->Ok_0;
        let ll = last as u64;
        assert(!init.contains(last)) by {
            if init.contains(last) {
                let w = choose|w: int| 0 <= w < init.len() && #[trigger] init[w] == last;
                assert(qs[w] == qs[qs.len() - 1]);
            }
        }
        assert(!bit(m, last));
        assert((m & (1u64 << ll)) == 0) by (bit_vector)
            requires
                ll < 64,
                !((m >> ll) & 1 == 1),
        ;
        let m2 = m | (1u64 << ll);
        assert forall|q: usize| q < 64 implies (#[trigger] bit(m2, q) == qs.contains(q)) by {
            let qq = q as u64;
            assert(((m2 >> qq) & 1 == 1) == (((m >> qq) & 1 == 1) || qq == ll)) by (bit_vector)
                requires
                    m2 == m | (1u64 << ll),
                    ll < 64,
                    qq < 64,
            ;
            if q == last {
                assert(qs[qs.len() - 1] == q);
                assert(qs.contains(q));
                assert(bit(m2, q));
            } else {
                assert(qq != ll);
                assert(bit(m2, q) == bit(m, q));
                assert(bit(m, q) == init.contains(q));
                if qs.contains(q) {
                    let w = choose|w: int| 0 <= w < qs.len() && #[trigger] qs[w] == q;
                    assert(w != qs.len() - 1);
                    assert(init[w] == q);
                    assert(init.contains(q));
                }
                if init.contains(q) {
                    let w = choose|w: int| 0 <= w < init.len() && #[trigger] init[w] == q;
                    assert(qs[w] == q);
                    assert(qs.contains(q));
                }
            }
        }
    }
}

/// A list of NOTs with valid claims claims validly and sends every basis
/// string somewhere.
proof fn lemma_valid_nots(gs: Seq<Op>, n: usize, k: u64)
    requires
        valid_nots(gs, n),
        n <= 64,
    ensures
        schedule_list(gs, 0, n) is Ok,
        image_list(gs, k) is Ok,
    decreases gs.len(),
{
    if gs.len() > 0 {
        let init = gs.drop_last();
        assert forall|i: int| 0 <= i < init.len() implies {
            let g = #[trigger] init[i];
            &&& (g is X || g is CX || g is CCX || g is CNX)
            &&& leaf_claims(g).no_duplicates()
            &&& forall|j: int| 0 <= j < leaf_claims(g).len() ==> #[trigger] leaf_claims(g)[j] < n
        } by {
            assert(init[i] == gs[i]);
        }
        lemma_valid_nots(init, n, k);
        let g = gs.last();
        assert(g == gs[gs.len() - 1]);
        assert(gs.drop_last() == init);
        lemma_claim_distinct(leaf_claims(g), n);
        assert(schedule(g, 0, n) is Ok);
        let qs = leaf_claims(g);
        assert forall|j: int| 0 <= j < qs.len() implies #[trigger] qs[j] < 64 by {}
        assert(qubits_in_range(qs));
        let k1 = image_list(init, k)->Ok_0;
        assert(image(g, k1) is Ok);
    }
}

proof fn lemma_valid_nots_append(s1: Seq<Op>, s2: Seq<Op>, n: usize)
    requires
        valid_nots(s1, n),
        valid_nots(s2, n),
    ensures
        valid_nots(s1 + s2, n),
{
    assert forall|i: int| 0 <= i < (s1 + s2).len() implies {
        let g = #[trigger] (s1 + s2)[i];
        &&& (g is X || g is CX || g is CCX || g is CNX)
        &&& leaf_claims(g).no_duplicates()
        &&& forall|j: int| 0 <= j < leaf_claims(g).len() ==> #[trigger] leaf_claims(g)[j] < n
    } by {
        if i < s1.len() {
            assert((s1 + s2)[i] == s1[i]);
        } else {
            assert((s1 + s2)[i] == s2[i - s1.len()]);
        }
    }
}

proof fn lemma_subrange_distinct(b: Seq<usize>, lo: int, hi: int)
    requires
        0 <= lo <= hi <= b.len(),
        b.no_duplicates(),
        in_range(b),
    ensures
        b.subrange(lo, hi).no_duplicates(),
        forall|j: int| 0 <= j < hi - lo ==> #[trigger] b.subrange(lo, hi)[j] < 64,
{
    let s = b.subrange(lo, hi);
    assert forall|i: int, j: int| 0 <= i < s.len() && 0 <= j < s.len() && i != j implies s[i] != s[j] by {
        assert(s[i] == b[i + lo] && s[j] == b[j + lo]);
    }
    assert forall|j: int| 0 <= j < hi - lo implies #[trigger] s[j] < 64 by {
        assert(s[j] == b[j + lo]);
    }
}

proof fn lemma_carry_gate_claims(b: Seq<usize>, m: int, i: int)
    requires
        0 <= m < i < b.len(),
    ensures
        leaf_claims(carry_gate(b, m, i)) == b.subrange(m, i + 1),
        carry_gate(b, m, i) is CX || carry_gate(b, m, i) is CCX || carry_gate(b, m, i) is CNX,
{
    let cs = b.subrange(m, i);
    if cs.len() == 1 {
        assert(leaf_claims(carry_gate(b, m, i)) =~= b.subrange(m, i + 1));
    } else if cs.len() == 2 {
        assert(leaf_claims(carry_gate(b, m, i)) =~= b.subrange(m, i + 1));
    } else {
        assert(cs.push(b[i]) =~= b.subrange(m, i + 1));
    }
}

proof fn lemma_power_adder_valid(b: Seq<usize>, m: int)
    requires
        0 <= m < b.len(),
        b.no_duplicates(),
        in_range(b),
    ensures
        valid_nots(power_adder_ops(b, m), 64),
{
    lemma_carries_valid(b, m, b.len() as int);
    let last = seq![Op::X(b[m])];
    assert(leaf_claims(Op::X(b[m])) =~= seq![b[m]]);
    assert(valid_nots(last, 64));
    lemma_valid_nots_append(carry_ops(b, m, b.len() as int), last, 64);
}

proof fn lemma_carries_valid(b: Seq<usize>, m: int, kk: int)
    requires
        0 <= m < b.len(),
        kk <= b.len(),
        b.no_duplicates(),
        in_range(b),
    ensures
        valid_nots(carry_ops(b, m, kk), 64),
    decreases kk - m,
{
    if kk > m + 1 {
        lemma_carries_valid(b, m, kk - 1);
        let i = b.len() - (kk - 1) + m;
        lemma_carry_gate_claims(b, m, i);
        lemma_subrange_distinct(b, m, i + 1);
        lemma_valid_nots_append(carry_ops(b, m, kk - 1), seq![carry_gate(b, m, i)], 64);
    }
}

proof fn lemma_const_adder_valid(b: Seq<usize>, a: usize, kk: int)
    requires
        kk <= b.len(),
        b.no_duplicates(),
        in_range(b),
    ensures
        valid_nots(const_adder_ops(b, a, kk), 64),
    decreases kk,
{
    if kk > 0 {
        lemma_const_adder_valid(b, a, kk - 1);
        if bit_of(a, kk - 1) {
            lemma_power_adder_valid(b, kk - 1);
            lemma_valid_nots_append(const_adder_ops(b, a, kk - 1), power_adder_ops(b, kk - 1), 64);
        } else {
            lemma_valid_nots_append(const_adder_ops(b, a, kk - 1), Seq::<Op>::empty(), 64);
        }
    }
}

/// On every basis string, `gs` undoes the constant adder over the bits of
/// `a_const` below `kk` on the register `b`.
pub open spec fn undoes_const_adder(gs: Seq<Op>, b: Seq<usize>, a_const: usize, kk: int) -> bool {
    forall|k: u64|
        #[trigger] image_list(const_adder_ops(b, a_const, kk), k) matches Ok(k2) && image_list(
            gs,
            k2,
        ) == Ok::<u64, QitError>(k)
}

/// The reverse of a constant adder on a register of distinct qubits undoes
/// it.
pub proof fn lemma_const_subtractor_meets(b: Seq<usize>, a_const: usize, kk: int)
    requires
        0 <= kk <= b.len(),
        b.no_duplicates(),
        in_range(b),
    ensures
        undoes_const_adder(reversed_list(const_adder_ops(b, a_const, kk)), b, a_const, kk),
{
    lemma_const_adder_valid(b, a_const, kk);
    assert forall|k: u64| #[trigger] image_list(const_adder_ops(b, a_const, kk), k) matches Ok(k2)
        && image_list(reversed_list(const_adder_ops(b, a_const, kk)), k2) == Ok::<u64, QitError>(k) by {
        lemma_valid_nots(const_adder_ops(b, a_const, kk), 64, k);
        lemma_reversed_list_undoes(const_adder_ops(b, a_const, kk), 0, 64, k);
    }
}

} // verus!
