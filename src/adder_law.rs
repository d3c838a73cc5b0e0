//! The ripple-carry adder over 3-qubit registers, checked gate by gate on
//! every pair of summands.
use crate::circuits::{adder_ops, backward_ops, forward_ops};
use crate::error::QitError;
use crate::gates::{
    ccx_bits, cx_bits, image, image_list, lemma_ccx_step, lemma_cx_step, Op,
};
use vstd::prelude::*;

verus! {

/// The gates of the ripple-carry adder over `a = [3, 4, 5]`, `b = [0, 1, 2]`
/// and carries `[6, 7, 8]`.
pub open spec fn three_bit_adder() -> Seq<Op> {
    seq![
        Op::CCX(3, 0, 6),
        Op::CCX(4, 1, 7),
        Op::CX(4, 1),
        Op::CCX(6, 1, 7),
        Op::CX(5, 2),
        Op::CX(7, 2),
        Op::CCX(6, 1, 7),
        Op::CX(4, 1),
        Op::CCX(4, 1, 7),
        Op::CX(4, 1),
        Op::CX(6, 1),
        Op::CCX(3, 0, 6),
        Op::CX(3, 0),
    ]
}

#[verifier::rlimit(40)]
proof fn lemma_three_bit_adder_ops()
    ensures
        adder_ops(seq![3, 4, 5], seq![0, 1, 2], seq![6, 7, 8]) == three_bit_adder(),
{
    let ra: Seq<usize> = seq![3, 4, 5];
    let rb: Seq<usize> = seq![0, 1, 2];
    let rc: Seq<usize> = seq![6, 7, 8];
    assert(forward_ops(ra, rb, rc, 1) == Seq::<Op>::empty());
    assert(forward_ops(ra, rb, rc, 2) =~= seq![Op::CCX(4, 1, 7), Op::CX(4, 1), Op::CCX(6, 1, 7)]);
    assert(forward_ops(ra, rb, rc, 3) =~= seq![
        Op::CCX(4, 1, 7),
        Op::CX(4, 1),
        Op::CCX(6, 1, 7),
        Op::CX(5, 2),
        Op::CX(7, 2),
    ]);
    assert(backward_ops(ra, rb, rc, 2) == Seq::<Op>::empty());
    assert(backward_ops(ra, rb, rc, 3) =~= seq![
        Op::CCX(6, 1, 7),
        Op::CX(4, 1),
        Op::CCX(4, 1, 7),
        Op::CX(4, 1),
        Op::CX(6, 1),
    ]);
    assert(adder_ops(ra, rb, rc) =~= three_bit_adder());
}

/// What `three_bit_adder` does to the basis string `k`, gate by gate.
pub open spec fn three_bit_adder_bits(k: u64) -> u64 {
    let k1 = ccx_bits(k, 3, 0, 6);
    let k2 = ccx_bits(k1, 4, 1, 7);
    let k3 = cx_bits(k2, 4, 1);
    let k4 = ccx_bits(k3, 6, 1, 7);
    let k5 = cx_bits(k4, 5, 2);
    let k6 = cx_bits(k5, 7, 2);
    let k7 = ccx_bits(k6, 6, 1, 7);
    let k8 = cx_bits(k7, 4, 1);
    let k9 = ccx_bits(k8, 4, 1, 7);
    let k10 = cx_bits(k9, 4, 1);
    let k11 = cx_bits(k10, 6, 1);
    let k12 = ccx_bits(k11, 3, 0, 6);
    cx_bits(k12, 3, 0)
}

#[verifier::rlimit(40)]
proof fn lemma_three_bit_adder_image(k: u64)
    ensures
        image_list(three_bit_adder(), k) == Ok::<u64, QitError>(three_bit_adder_bits(k)),
{
    let l = three_bit_adder();
    assert(l.subrange(0, 0) =~= Seq::<Op>::empty());
    let k1 = ccx_bits(k, 3, 0, 6);
    lemma_ccx_step(l, 0, k, k, 3, 0, 6);
    let k2 = ccx_bits(k1, 4, 1, 7);
    lemma_ccx_step(l, 1, k, k1, 4, 1, 7);
    let k3 = cx_bits(k2, 4, 1);
    lemma_cx_step(l, 2, k, k2, 4, 1);
    let k4 = ccx_bits(k3, 6, 1, 7);
    lemma_ccx_step(l, 3, k, k3, 6, 1, 7);
    let k5 = cx_bits(k4, 5, 2);
    lemma_cx_step(l, 4, k, k4, 5, 2);
    let k6 = cx_bits(k5, 7, 2);
    lemma_cx_step(l, 5, k, k5, 7, 2);
    let k7 = ccx_bits(k6, 6, 1, 7);
    lemma_ccx_step(l, 6, k, k6, 6, 1, 7);
    let k8 = cx_bits(k7, 4, 1);
    lemma_cx_step(l, 7, k, k7, 4, 1);
    let k9 = ccx_bits(k8, 4, 1, 7);
    lemma_ccx_step(l, 8, k, k8, 4, 1, 7);
    let k10 = cx_bits(k9, 4, 1);
    lemma_cx_step(l, 9, k, k9, 4, 1);
    let k11 = cx_bits(k10, 6, 1);
    lemma_cx_step(l, 10, k, k10, 6, 1);
    let k12 = ccx_bits(k11, 3, 0, 6);
    lemma_ccx_step(l, 11, k, k11, 3, 0, 6);
    lemma_cx_step(l, 12, k, k12, 3, 0);
    assert(l.subrange(0, 13) =~= l);
}

#[verifier::rlimit(40)]
proof fn lemma_three_bit_adder_sum(a: u64, b: u64)
    requires
        a < 8,
        b < 8,
    ensures
        three_bit_adder_bits((a << 3u64) | b) == (a << 3u64) | (((a + b) % 8) as u64),
{
    let k0 = (a << 3u64) | b;
    let k1 = ccx_bits(k0, 3, 0, 6);
    let k2 = ccx_bits(k1, 4, 1, 7);
    let k3 = cx_bits(k2, 4, 1);
    let k4 = ccx_bits(k3, 6, 1, 7);
    let k5 = cx_bits(k4, 5, 2);
    let k6 = cx_bits(k5, 7, 2);
    let k7 = ccx_bits(k6, 6, 1, 7);
    let k8 = cx_bits(k7, 4, 1);
    let k9 = ccx_bits(k8, 4, 1, 7);
    let k10 = cx_bits(k9, 4, 1);
    let k11 = cx_bits(k10, 6, 1);
    let k12 = ccx_bits(k11, 3, 0, 6);
    let k13 = cx_bits(k12, 3, 0);
    let sum = ((a + b) % 8) as u64;
    let r = (a << 3u64) | sum;
    assert(k13 == r) by (bit_vector)
        requires
            a < 8,
            b < 8,
            k0 == (a << 3u64) | b,
            k1 == if (k0 >> 3u64) & 1 == 1 && (k0 >> 0u64) & 1 == 1 { k0 ^ (1u64 << 6u64) } else { k0 },
            k2 == if (k1 >> 4u64) & 1 == 1 && (k1 >> 1u64) & 1 == 1 { k1 ^ (1u64 << 7u64) } else { k1 },
            k3 == if (k2 >> 4u64) & 1 == 1 { k2 ^ (1u64 << 1u64) } else { k2 },
            k4 == if (k3 >> 6u64) & 1 == 1 && (k3 >> 1u64) & 1 == 1 { k3 ^ (1u64 << 7u64) } else { k3 },
            k5 == if (k4 >> 5u64) & 1 == 1 { k4 ^ (1u64 << 2u64) } else { k4 },
            k6 == if (k5 >> 7u64) & 1 == 1 { k5 ^ (1u64 << 2u64) } else { k5 },
            k7 == if (k6 >> 6u64) & 1 == 1 && (k6 >> 1u64) & 1 == 1 { k6 ^ (1u64 << 7u64) } else { k6 },
            k8 == if (k7 >> 4u64) & 1 == 1 { k7 ^ (1u64 << 1u64) } else { k7 },
            k9 == if (k8 >> 4u64) & 1 == 1 && (k8 >> 1u64) & 1 == 1 { k8 ^ (1u64 << 7u64) } else { k8 },
            k10 == if (k9 >> 4u64) & 1 == 1 { k9 ^ (1u64 << 1u64) } else { k9 },
            k11 == if (k10 >> 6u64) & 1 == 1 { k10 ^ (1u64 << 1u64) } else { k10 },
            k12 == if (k11 >> 3u64) & 1 == 1 && (k11 >> 0u64) & 1 == 1 { k11 ^ (1u64 << 6u64) } else { k11 },
            k13 == if (k12 >> 3u64) & 1 == 1 { k12 ^ (1u64 << 0u64) } else { k12 },
            sum == ((a + b) as u64) % 8,
            r == (a << 3u64) | sum,
    ;
}

/// The ripple-carry adder over `a = [3, 4, 5]`, `b = [0, 1, 2]` and carries
/// `[6, 7, 8]` sends `|a>|b>|0>` to `|a>|a + b mod 8>|0>` for every
/// `a, b < 8`: the sum lands in `b`, and `a` and the carries are restored.
pub proof fn lemma_adder_on_three_bits(a: u64, b: u64)
    requires
        a < 8,
        b < 8,
    ensures
        image(Op::U(adder_ops(seq![3, 4, 5], seq![0, 1, 2], seq![6, 7, 8])), (a << 3u64) | b)
            == Ok::<u64, QitError>((a << 3u64) | (((a + b) % 8) as u64)),
{
    lemma_three_bit_adder_ops();
    lemma_three_bit_adder_image((a << 3u64) | b);
    lemma_three_bit_adder_sum(a, b);
}

} // verus!
