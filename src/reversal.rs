//! Why reversal inverts: on every basis string, the structural reverse of a
//! gate tree whose qubit claims are valid undoes the tree.
use crate::error::QitError;
use crate::gates::{
    bit, claim, controls_set, flip, image, image_list, leaf_claims, leaf_target, reversed,
    reversed_list, schedule, schedule_list, Op, Step,
};
use crate::circuits::{
    fourier_ops, high_half_reversed, inv_qft_ops, low_half, qft_ops, rotation_ops, swap_ops,
};
use vstd::arithmetic::power2::pow2;
use vstd::prelude::*;

verus! {

proof fn lemma_bits(m: u64, q: usize, p: usize)
    requires
        q < 64,
        p < 64,
    ensures
        (m & (1u64 << (q as u64))) == 0 <==> !bit(m, q),
        bit(m | (1u64 << (q as u64)), q),
        bit(m, p) ==> bit(m | (1u64 << (q as u64)), p),
        p != q ==> (bit(flip(m, q), p) == bit(m, p)),
        bit(flip(flip(m, q), q), q) == bit(m, q),
        flip(flip(m, q), q) == m,
{
    let qq = q as u64;
    let pp = p as u64;
    assert((m & (1u64 << qq)) == 0 <==> !((m >> qq) & 1 == 1)) by (bit_vector)
        requires
            qq < 64,
    ;
    assert(((m | (1u64 << qq)) >> qq) & 1 == 1) by (bit_vector)
        requires
            qq < 64,
    ;
    assert((m >> pp) & 1 == 1 ==> ((m | (1u64 << qq)) >> pp) & 1 == 1) by (bit_vector)
        requires
            qq < 64,
            pp < 64,
    ;
    assert(pp != qq ==> (((m ^ (1u64 << qq)) >> pp) & 1 == 1) == ((m >> pp) & 1 == 1))
        by (bit_vector)
        requires
            qq < 64,
            pp < 64,
    ;
    assert((m ^ (1u64 << qq)) ^ (1u64 << qq) == m) by (bit_vector);
}

/// What a successful claim establishes: every claimed qubit lies in the
/// register, was free before, is claimed after, and no qubit is claimed
/// twice; earlier claims stay.
proof fn lemma_claim_ok(m: u64, qs: Seq<usize>, n: usize)
    requires
        n <= 64,
        claim(m, qs, n) is Ok,
    ensures
        forall|i: int|
            0 <= i < qs.len() ==> #[trigger] qs[i] < n && !bit(m, qs[i]) && bit(
                claim(m, qs, n)->Ok_0,
                qs[i],
            ),
        forall|i: int, j: int| 0 <= i < j < qs.len() ==> qs[i] != qs[j],
        forall|p: usize| p < 64 && #[trigger] bit(m, p) ==> bit(claim(m, qs, n)->Ok_0, p),
    decreases qs.len(),
{
    if qs.len() > 0 {
        let init = qs.drop_last();
        lemma_claim_ok(m, init, n);
        let m1 = claim(m, init, n)->Ok_0;
        let q = qs.last();
        let m2 = claim(m, qs, n)->Ok_0;
        assert(m2 == m1 | (1u64 << (q as u64)));
        assert forall|p: usize| p < 64 && bit(m1, p) implies bit(m2, p) by {
            lemma_bits(m1, q, p);
        }
        lemma_bits(m1, q, q);
        assert forall|i: int| 0 <= i < qs.len() implies #[trigger] qs[i] < n && !bit(m, qs[i])
            && bit(m2, qs[i]) by {
            if i < qs.len() - 1 {
                assert(qs[i] == init[i]);
                lemma_bits(m1, q, qs[i]);
            } else {
                if bit(m, q) {
                    assert(bit(m1, q));
                }
            }
        }
        assert forall|i: int, j: int| 0 <= i < j < qs.len() implies qs[i] != qs[j] by {
            if j < qs.len() - 1 {
                assert(qs[i] == init[i]);
                assert(qs[j] == init[j]);
            } else {
                assert(qs[i] == init[i]);
                assert(bit(m1, init[i]));
            }
        }
    }
}

/// The image under `s1 + s2` is the image under `s2` of the image under `s1`.
pub proof fn lemma_image_list_append(s1: Seq<Op>, s2: Seq<Op>, k: u64)
    ensures
        image_list(s1 + s2, k) == match image_list(s1, k) {
            Ok(k1) => image_list(s2, k1),
            Err(e) => Err(e),
        },
    decreases s2.len(),
{
    if s2.len() == 0 {
        assert(s1 + s2 =~= s1);
    } else {
        lemma_image_list_append(s1, s2.drop_last(), k);
        assert((s1 + s2).drop_last() =~= s1 + s2.drop_last());
        assert((s1 + s2).last() == s2.last());
    }
}

/// A gate with valid claims leaves every qubit claimed around it unchanged.
proof fn lemma_image_keeps(op: Op, m: u64, n: usize, k: u64)
    requires
        n <= 64,
        schedule(op, m, n) is Ok,
        image(op, k) is Ok,
    ensures
        forall|q: usize| q < 64 && #[trigger] bit(m, q) ==> bit(image(op, k)->Ok_0, q) == bit(k, q),
    decreases op,
{
    match op {
        Op::U(gs) => {
            lemma_image_list_keeps(gs, m, n, k);
        },
        Op::CU(c, gs) => {
            lemma_claim_ok(m, seq![c], n);
            let m1 = claim(m, seq![c], n)->Ok_0;
            if bit(k, c) {
                lemma_image_list_keeps(gs, m1, n, k);
            }
        },
        _ => {
            let qs = leaf_claims(op);
            lemma_claim_ok(m, qs, n);
            let t = leaf_target(op);
            assert(qs.last() == t);
            assert forall|q: usize| q < 64 && #[trigger] bit(m, q) implies bit(
                image(op, k)->Ok_0,
                q,
            ) == bit(k, q) by {
                assert(!bit(m, qs[qs.len() - 1]));
                lemma_bits(k, t, q);
            }
        },
    }
}

proof fn lemma_image_list_keeps(gs: Seq<Op>, m: u64, n: usize, k: u64)
    requires
        n <= 64,
        schedule_list(gs, m, n) is Ok,
        image_list(gs, k) is Ok,
    ensures
        forall|q: usize| q < 64 && #[trigger] bit(m, q) ==> bit(image_list(gs, k)->Ok_0, q) == bit(
            k,
            q,
        ),
    decreases gs,
{
    if gs.len() > 0 {
        let init = gs.drop_last();
        lemma_image_list_keeps(init, m, n, k);
        let k1 = image_list(init, k)->Ok_0;
        lemma_image_keeps(gs.last(), m, n, k1);
    }
}

/// The structural reverse of a gate whose claims are valid undoes it on
/// every basis string it acts on.
pub proof fn lemma_reversed_undoes(op: Op, m: u64, n: usize, k: u64)
    requires
        n <= 64,
        schedule(op, m, n) is Ok,
        image(op, k) is Ok,
    ensures
        image(reversed(op), image(op, k)->Ok_0) == Ok::<u64, QitError>(k),
    decreases op,
{
    match op {
        Op::U(gs) => {
            lemma_reversed_list_undoes(gs, m, n, k);
        },
        Op::CU(c, gs) => {
            lemma_claim_ok(m, seq![c], n);
            let m1 = claim(m, seq![c], n)->Ok_0;
            assert(seq![c][0] == c);
            if bit(k, c) {
                lemma_image_list_keeps(gs, m1, n, k);
                lemma_reversed_list_undoes(gs, m1, n, k);
            }
        },
        _ => {
            let qs = leaf_claims(op);
            lemma_claim_ok(m, qs, n);
            let t = leaf_target(op);
            let cs = qs.drop_last();
            assert(qs.last() == t);
            lemma_bits(k, t, t);
            assert forall|i: int| 0 <= i < cs.len() implies bit(flip(k, t), #[trigger] cs[i])
                == bit(k, cs[i]) by {
                assert(cs[i] == qs[i]);
                assert(qs[i] != qs[qs.len() - 1]);
                lemma_bits(k, t, cs[i]);
            }
            assert(controls_set(flip(k, t), cs) == controls_set(k, cs));
        },
    }
}

/// The reverse of a list of gates with valid claims undoes the list.
pub proof fn lemma_reversed_list_undoes(gs: Seq<Op>, m: u64, n: usize, k: u64)
    requires
        n <= 64,
        schedule_list(gs, m, n) is Ok,
        image_list(gs, k) is Ok,
    ensures
        image_list(reversed_list(gs), image_list(gs, k)->Ok_0) == Ok::<u64, QitError>(k),
    decreases gs,
{
    if gs.len() > 0 {
        let init = gs.drop_last();
        let g = gs.last();
        let k1 = image_list(init, k)->Ok_0;
        let k2 = image_list(gs, k)->Ok_0;
        lemma_reversed_undoes(g, m, n, k1);
        lemma_reversed_list_undoes(init, m, n, k);
        let rg = seq![reversed(g)];
        assert(rg.drop_last() =~= Seq::<Op>::empty());
        assert(image_list(Seq::<Op>::empty(), k2) == Ok::<u64, QitError>(k2));
        assert(rg.last() == reversed(g));
        assert(image(g, k1) == Ok::<u64, QitError>(k2));
        assert(image_list(rg, k2) == Ok::<u64, QitError>(k1));
        lemma_image_list_append(rg, reversed_list(init), k2);
    } else {
        assert(reversed_list(gs) =~= Seq::<Op>::empty());
    }
}

/// This operation with every phase rotation turned the other way: a rotation by
/// `k / 2^d` of a turn becomes one by `(2^d - k) / 2^d`.
pub open spec fn inverted(op: Op) -> Op
    decreases op,
{
    match op {
        Op::R(t, k, d) => Op::R(t, (pow2(d as nat) - k) as u64, d),
        Op::CU(c, gs) => Op::CU(c, inverted_list(gs)),
        Op::U(gs) => Op::U(inverted_list(gs)),
        _ => op,
    }
}

/// Each gate of a list with its rotations turned the other way.
pub open spec fn inverted_list(gs: Seq<Op>) -> Seq<Op>
    decreases gs,
{
    if gs.len() == 0 {
        seq![]
    } else {
        inverted_list(gs.drop_last()).push(inverted(gs.last()))
    }
}

proof fn lemma_inverted_append(s1: Seq<Op>, s2: Seq<Op>)
    ensures
        inverted_list(s1 + s2) == inverted_list(s1) + inverted_list(s2),
    decreases s2.len(),
{
    if s2.len() == 0 {
        assert(s1 + s2 =~= s1);
        assert(inverted_list(s1) + inverted_list(s2) =~= inverted_list(s1));
    } else {
        lemma_inverted_append(s1, s2.drop_last());
        assert((s1 + s2).drop_last() =~= s1 + s2.drop_last());
        assert(inverted_list(s1 + s2) =~= inverted_list(s1) + inverted_list(s2));
    }
}

proof fn lemma_inverted_swap(a: Seq<usize>, b: Seq<usize>)
    ensures
        inverted_list(swap_ops(a, b)) == swap_ops(a, b),
    decreases a.len(),
{
    if a.len() > 0 && b.len() > 0 {
        let (x, y) = (a.last(), b.last());
        let tail = seq![Op::CX(x, y), Op::CX(y, x), Op::CX(x, y)];
        lemma_inverted_swap(a.drop_last(), b.drop_last());
        lemma_inverted_append(swap_ops(a.drop_last(), b.drop_last()), tail);
        let t1 = seq![Op::CX(x, y)];
        let t2 = seq![Op::CX(x, y), Op::CX(y, x)];
        assert(t1.drop_last() =~= Seq::<Op>::empty());
        assert(inverted_list(Seq::<Op>::empty()) == Seq::<Op>::empty());
        assert(inverted_list(t1) == inverted_list(t1.drop_last()).push(inverted(t1.last())));
        assert(inverted_list(t1) =~= t1);
        assert(t2.drop_last() =~= t1);
        assert(inverted_list(t2) == inverted_list(t2.drop_last()).push(inverted(t2.last())));
        assert(inverted_list(t2) =~= t2);
        assert(tail.drop_last() =~= t2);
        assert(inverted_list(tail) == inverted_list(tail.drop_last()).push(inverted(tail.last())));
        assert(inverted_list(tail) =~= tail);
    }
}

proof fn lemma_inverted_rotations(x: Seq<usize>, i: int, k: int)
    requires
        0 <= i,
        k <= x.len() <= 63,
    ensures
        inverted_list(rotation_ops(x, i, k, false)) == rotation_ops(x, i, k, true),
    decreases k - i,
{
    if k > i + 1 {
        let j = k - 1;
        let d = (j + 1 - i) as nat;
        let inner = seq![Op::R(x[i], 1u64, d as u32)];
        let g = Op::CU(x[j], inner);
        lemma_inverted_rotations(x, i, k - 1);
        lemma_inverted_append(rotation_ops(x, i, k - 1, false), seq![g]);
        assert(seq![g].drop_last() =~= Seq::<Op>::empty());
        assert(inner.drop_last() =~= Seq::<Op>::empty());
        assert(inverted_list(Seq::<Op>::empty()) == Seq::<Op>::empty());
        assert((d as u32) as nat == d);
        assert(inverted(inner.last()) == Op::R(x[i], (pow2(d) - 1) as u64, d as u32));
        assert(inverted_list(inner) =~= seq![Op::R(x[i], (pow2(d) - 1) as u64, d as u32)]);
        assert(inverted_list(seq![g]) =~= seq![inverted(g)]);
    }
}

proof fn lemma_inverted_fourier(x: Seq<usize>, k: int)
    requires
        k <= x.len() <= 63,
    ensures
        inverted_list(fourier_ops(x, k, false)) == fourier_ops(x, k, true),
    decreases k,
{
    if k > 0 {
        lemma_inverted_fourier(x, k - 1);
        let h = seq![Op::H(x[k - 1])];
        lemma_inverted_append(fourier_ops(x, k - 1, false), h);
        assert(h.drop_last() =~= Seq::<Op>::empty());
        assert(inverted_list(Seq::<Op>::empty()) == Seq::<Op>::empty());
        assert(h.last() == Op::H(x[k - 1]));
        assert(inverted(h.last()) == h.last());
        assert(inverted_list(h) == inverted_list(h.drop_last()).push(inverted(h.last())));
        assert(inverted_list(h) =~= h);
        lemma_inverted_rotations(x, k - 1, x.len() as int);
        lemma_inverted_append(
            fourier_ops(x, k - 1, false) + h,
            rotation_ops(x, k - 1, x.len() as int, false),
        );
    }
}

/// The inverse Fourier transform is the reverse of the forward transform
/// with every rotation turned the other way.
pub proof fn lemma_inverse_qft_shape(x: Seq<usize>)
    requires
        x.len() <= 63,
    ensures
        inv_qft_ops(x) == reversed_list(inverted_list(qft_ops(x))),
{
    let sw = swap_ops(low_half(x), high_half_reversed(x));
    lemma_inverted_append(sw, fourier_ops(x, x.len() as int, false));
    lemma_inverted_swap(low_half(x), high_half_reversed(x));
    lemma_inverted_fourier(x, x.len() as int);
}

} // verus!
