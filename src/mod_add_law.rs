//! The modular adder over 4-qubit registers modulo 7, checked gate by gate
//! on every pair of summands.
use crate::error::QitError;
use crate::circuits::{
    adder_ops, backward_block, backward_ops, forward_block, forward_ops, load_ops, mod_add_ops,
};
use crate::reversal::lemma_image_list_append;
use crate::gates::{
    ccx_bits, cx_bits, image, image_list, lemma_ccx_step, lemma_cx_step, lemma_x_step, reversed,
    reversed_list, x_bits, Op,
};
use vstd::prelude::*;

verus! {

/// The adder of `a` into `b`.
spec fn sum_ab() -> Seq<Op> {
    seq![
        Op::CCX(0, 4, 12),
        Op::CCX(1, 5, 13),
        Op::CX(1, 5),
        Op::CCX(12, 5, 13),
        Op::CCX(2, 6, 14),
        Op::CX(2, 6),
        Op::CCX(13, 6, 14),
        Op::CX(3, 7),
        Op::CX(14, 7),
        Op::CCX(13, 6, 14),
        Op::CX(2, 6),
        Op::CCX(2, 6, 14),
        Op::CX(2, 6),
        Op::CX(13, 6),
        Op::CCX(12, 5, 13),
        Op::CX(1, 5),
        Op::CCX(1, 5, 13),
        Op::CX(1, 5),
        Op::CX(12, 5),
        Op::CCX(0, 4, 12),
        Op::CX(0, 4),
    ]
}

/// What `sum_ab` does to a basis string, gate by gate.
spec fn sum_ab_bits(k: u64) -> u64 {
    let k1 = ccx_bits(k, 0, 4, 12);
    let k2 = ccx_bits(k1, 1, 5, 13);
    let k3 = cx_bits(k2, 1, 5);
    let k4 = ccx_bits(k3, 12, 5, 13);
    let k5 = ccx_bits(k4, 2, 6, 14);
    let k6 = cx_bits(k5, 2, 6);
    let k7 = ccx_bits(k6, 13, 6, 14);
    let k8 = cx_bits(k7, 3, 7);
    let k9 = cx_bits(k8, 14, 7);
    let k10 = ccx_bits(k9, 13, 6, 14);
    let k11 = cx_bits(k10, 2, 6);
    let k12 = ccx_bits(k11, 2, 6, 14);
    let k13 = cx_bits(k12, 2, 6);
    let k14 = cx_bits(k13, 13, 6);
    let k15 = ccx_bits(k14, 12, 5, 13);
    let k16 = cx_bits(k15, 1, 5);
    let k17 = ccx_bits(k16, 1, 5, 13);
    let k18 = cx_bits(k17, 1, 5);
    let k19 = cx_bits(k18, 12, 5);
    let k20 = ccx_bits(k19, 0, 4, 12);
    cx_bits(k20, 0, 4)
}

#[verifier::rlimit(40)]
proof fn lemma_sum_ab_image(k: u64)
    ensures
        image_list(sum_ab(), k) == Ok::<u64, QitError>(sum_ab_bits(k)),
{
    let l = sum_ab();
    assert(l.subrange(0, 0) =~= Seq::<Op>::empty());
    lemma_ccx_step(l, 0, k, k, 0, 4, 12);
    let k1 = ccx_bits(k, 0, 4, 12);
    lemma_ccx_step(l, 1, k, k1, 1, 5, 13);
    let k2 = ccx_bits(k1, 1, 5, 13);
    lemma_cx_step(l, 2, k, k2, 1, 5);
    let k3 = cx_bits(k2, 1, 5);
    lemma_ccx_step(l, 3, k, k3, 12, 5, 13);
    let k4 = ccx_bits(k3, 12, 5, 13);
    lemma_ccx_step(l, 4, k, k4, 2, 6, 14);
    let k5 = ccx_bits(k4, 2, 6, 14);
    lemma_cx_step(l, 5, k, k5, 2, 6);
    let k6 = cx_bits(k5, 2, 6);
    lemma_ccx_step(l, 6, k, k6, 13, 6, 14);
    let k7 = ccx_bits(k6, 13, 6, 14);
    lemma_cx_step(l, 7, k, k7, 3, 7);
    let k8 = cx_bits(k7, 3, 7);
    lemma_cx_step(l, 8, k, k8, 14, 7);
    let k9 = cx_bits(k8, 14, 7);
    lemma_ccx_step(l, 9, k, k9, 13, 6, 14);
    let k10 = ccx_bits(k9, 13, 6, 14);
    lemma_cx_step(l, 10, k, k10, 2, 6);
    let k11 = cx_bits(k10, 2, 6);
    lemma_ccx_step(l, 11, k, k11, 2, 6, 14);
    let k12 = ccx_bits(k11, 2, 6, 14);
    lemma_cx_step(l, 12, k, k12, 2, 6);
    let k13 = cx_bits(k12, 2, 6);
    lemma_cx_step(l, 13, k, k13, 13, 6);
    let k14 = cx_bits(k13, 13, 6);
    lemma_ccx_step(l, 14, k, k14, 12, 5, 13);
    let k15 = ccx_bits(k14, 12, 5, 13);
    lemma_cx_step(l, 15, k, k15, 1, 5);
    let k16 = cx_bits(k15, 1, 5);
    lemma_ccx_step(l, 16, k, k16, 1, 5, 13);
    let k17 = ccx_bits(k16, 1, 5, 13);
    lemma_cx_step(l, 17, k, k17, 1, 5);
    let k18 = cx_bits(k17, 1, 5);
    lemma_cx_step(l, 18, k, k18, 12, 5);
    let k19 = cx_bits(k18, 12, 5);
    lemma_ccx_step(l, 19, k, k19, 0, 4, 12);
    let k20 = ccx_bits(k19, 0, 4, 12);
    lemma_cx_step(l, 20, k, k20, 0, 4);
    assert(l.subrange(0, 21) =~= l);
}

/// The reversed adder of the modulus register into `b`.
spec fn undo_nb() -> Seq<Op> {
    seq![
        Op::CX(8, 4),
        Op::CCX(8, 4, 12),
        Op::CX(12, 5),
        Op::CX(9, 5),
        Op::CCX(9, 5, 13),
        Op::CX(9, 5),
        Op::CCX(12, 5, 13),
        Op::CX(13, 6),
        Op::CX(10, 6),
        Op::CCX(10, 6, 14),
        Op::CX(10, 6),
        Op::CCX(13, 6, 14),
        Op::CX(14, 7),
        Op::CX(11, 7),
        Op::CCX(13, 6, 14),
        Op::CX(10, 6),
        Op::CCX(10, 6, 14),
        Op::CCX(12, 5, 13),
        Op::CX(9, 5),
        Op::CCX(9, 5, 13),
        Op::CCX(8, 4, 12),
    ]
}

/// What `undo_nb` does to a basis string, gate by gate.
spec fn undo_nb_bits(k: u64) -> u64 {
    let k1 = cx_bits(k, 8, 4);
    let k2 = ccx_bits(k1, 8, 4, 12);
    let k3 = cx_bits(k2, 12, 5);
    let k4 = cx_bits(k3, 9, 5);
    let k5 = ccx_bits(k4, 9, 5, 13);
    let k6 = cx_bits(k5, 9, 5);
    let k7 = ccx_bits(k6, 12, 5, 13);
    let k8 = cx_bits(k7, 13, 6);
    let k9 = cx_bits(k8, 10, 6);
    let k10 = ccx_bits(k9, 10, 6, 14);
    let k11 = cx_bits(k10, 10, 6);
    let k12 = ccx_bits(k11, 13, 6, 14);
    let k13 = cx_bits(k12, 14, 7);
    let k14 = cx_bits(k13, 11, 7);
    let k15 = ccx_bits(k14, 13, 6, 14);
    let k16 = cx_bits(k15, 10, 6);
    let k17 = ccx_bits(k16, 10, 6, 14);
    let k18 = ccx_bits(k17, 12, 5, 13);
    let k19 = cx_bits(k18, 9, 5);
    let k20 = ccx_bits(k19, 9, 5, 13);
    ccx_bits(k20, 8, 4, 12)
}

#[verifier::rlimit(40)]
proof fn lemma_undo_nb_image(k: u64)
    ensures
        image_list(undo_nb(), k) == Ok::<u64, QitError>(undo_nb_bits(k)),
{
    let l = undo_nb();
    assert(l.subrange(0, 0) =~= Seq::<Op>::empty());
    lemma_cx_step(l, 0, k, k, 8, 4);
    let k1 = cx_bits(k, 8, 4);
    lemma_ccx_step(l, 1, k, k1, 8, 4, 12);
    let k2 = ccx_bits(k1, 8, 4, 12);
    lemma_cx_step(l, 2, k, k2, 12, 5);
    let k3 = cx_bits(k2, 12, 5);
    lemma_cx_step(l, 3, k, k3, 9, 5);
    let k4 = cx_bits(k3, 9, 5);
    lemma_ccx_step(l, 4, k, k4, 9, 5, 13);
    let k5 = ccx_bits(k4, 9, 5, 13);
    lemma_cx_step(l, 5, k, k5, 9, 5);
    let k6 = cx_bits(k5, 9, 5);
    lemma_ccx_step(l, 6, k, k6, 12, 5, 13);
    let k7 = ccx_bits(k6, 12, 5, 13);
    lemma_cx_step(l, 7, k, k7, 13, 6);
    let k8 = cx_bits(k7, 13, 6);
    lemma_cx_step(l, 8, k, k8, 10, 6);
    let k9 = cx_bits(k8, 10, 6);
    lemma_ccx_step(l, 9, k, k9, 10, 6, 14);
    let k10 = ccx_bits(k9, 10, 6, 14);
    lemma_cx_step(l, 10, k, k10, 10, 6);
    let k11 = cx_bits(k10, 10, 6);
    lemma_ccx_step(l, 11, k, k11, 13, 6, 14);
    let k12 = ccx_bits(k11, 13, 6, 14);
    lemma_cx_step(l, 12, k, k12, 14, 7);
    let k13 = cx_bits(k12, 14, 7);
    lemma_cx_step(l, 13, k, k13, 11, 7);
    let k14 = cx_bits(k13, 11, 7);
    lemma_ccx_step(l, 14, k, k14, 13, 6, 14);
    let k15 = ccx_bits(k14, 13, 6, 14);
    lemma_cx_step(l, 15, k, k15, 10, 6);
    let k16 = cx_bits(k15, 10, 6);
    lemma_ccx_step(l, 16, k, k16, 10, 6, 14);
    let k17 = ccx_bits(k16, 10, 6, 14);
    lemma_ccx_step(l, 17, k, k17, 12, 5, 13);
    let k18 = ccx_bits(k17, 12, 5, 13);
    lemma_cx_step(l, 18, k, k18, 9, 5);
    let k19 = cx_bits(k18, 9, 5);
    lemma_ccx_step(l, 19, k, k19, 9, 5, 13);
    let k20 = ccx_bits(k19, 9, 5, 13);
    lemma_ccx_step(l, 20, k, k20, 8, 4, 12);
    assert(l.subrange(0, 21) =~= l);
}

/// Sets the flag where `b` went below zero.
spec fn flag() -> Seq<Op> {
    seq![
        Op::X(7),
        Op::CX(7, 16),
        Op::X(7),
    ]
}

/// What `flag` does to a basis string, gate by gate.
spec fn flag_bits(k: u64) -> u64 {
    let k1 = x_bits(k, 7);
    let k2 = cx_bits(k1, 7, 16);
    x_bits(k2, 7)
}

proof fn lemma_flag_image(k: u64)
    ensures
        image_list(flag(), k) == Ok::<u64, QitError>(flag_bits(k)),
{
    let l = flag();
    assert(l.subrange(0, 0) =~= Seq::<Op>::empty());
    lemma_x_step(l, 0, k, k, 7);
    let k1 = x_bits(k, 7);
    lemma_cx_step(l, 1, k, k1, 7, 16);
    let k2 = cx_bits(k1, 7, 16);
    lemma_x_step(l, 2, k, k2, 7);
    assert(l.subrange(0, 3) =~= l);
}

/// Clears the modulus register where the flag is 1 (the modulus is 7).
spec fn load() -> Seq<Op> {
    seq![
        Op::CX(16, 8),
        Op::CX(16, 9),
        Op::CX(16, 10),
    ]
}

/// What `load` does to a basis string, gate by gate.
spec fn load_bits(k: u64) -> u64 {
    let k1 = cx_bits(k, 16, 8);
    let k2 = cx_bits(k1, 16, 9);
    cx_bits(k2, 16, 10)
}

proof fn lemma_load_image(k: u64)
    ensures
        image_list(load(), k) == Ok::<u64, QitError>(load_bits(k)),
{
    let l = load();
    assert(l.subrange(0, 0) =~= Seq::<Op>::empty());
    lemma_cx_step(l, 0, k, k, 16, 8);
    let k1 = cx_bits(k, 16, 8);
    lemma_cx_step(l, 1, k, k1, 16, 9);
    let k2 = cx_bits(k1, 16, 9);
    lemma_cx_step(l, 2, k, k2, 16, 10);
    assert(l.subrange(0, 3) =~= l);
}

/// The adder of the modulus register into `b`.
spec fn sum_nb() -> Seq<Op> {
    seq![
        Op::CCX(8, 4, 12),
        Op::CCX(9, 5, 13),
        Op::CX(9, 5),
        Op::CCX(12, 5, 13),
        Op::CCX(10, 6, 14),
        Op::CX(10, 6),
        Op::CCX(13, 6, 14),
        Op::CX(11, 7),
        Op::CX(14, 7),
        Op::CCX(13, 6, 14),
        Op::CX(10, 6),
        Op::CCX(10, 6, 14),
        Op::CX(10, 6),
        Op::CX(13, 6),
        Op::CCX(12, 5, 13),
        Op::CX(9, 5),
        Op::CCX(9, 5, 13),
        Op::CX(9, 5),
        Op::CX(12, 5),
        Op::CCX(8, 4, 12),
        Op::CX(8, 4),
    ]
}

/// What `sum_nb` does to a basis string, gate by gate.
spec fn sum_nb_bits(k: u64) -> u64 {
    let k1 = ccx_bits(k, 8, 4, 12);
    let k2 = ccx_bits(k1, 9, 5, 13);
    let k3 = cx_bits(k2, 9, 5);
    let k4 = ccx_bits(k3, 12, 5, 13);
    let k5 = ccx_bits(k4, 10, 6, 14);
    let k6 = cx_bits(k5, 10, 6);
    let k7 = ccx_bits(k6, 13, 6, 14);
    let k8 = cx_bits(k7, 11, 7);
    let k9 = cx_bits(k8, 14, 7);
    let k10 = ccx_bits(k9, 13, 6, 14);
    let k11 = cx_bits(k10, 10, 6);
    let k12 = ccx_bits(k11, 10, 6, 14);
    let k13 = cx_bits(k12, 10, 6);
    let k14 = cx_bits(k13, 13, 6);
    let k15 = ccx_bits(k14, 12, 5, 13);
    let k16 = cx_bits(k15, 9, 5);
    let k17 = ccx_bits(k16, 9, 5, 13);
    let k18 = cx_bits(k17, 9, 5);
    let k19 = cx_bits(k18, 12, 5);
    let k20 = ccx_bits(k19, 8, 4, 12);
    cx_bits(k20, 8, 4)
}

#[verifier::rlimit(40)]
proof fn lemma_sum_nb_image(k: u64)
    ensures
        image_list(sum_nb(), k) == Ok::<u64, QitError>(sum_nb_bits(k)),
{
    let l = sum_nb();
    assert(l.subrange(0, 0) =~= Seq::<Op>::empty());
    lemma_ccx_step(l, 0, k, k, 8, 4, 12);
    let k1 = ccx_bits(k, 8, 4, 12);
    lemma_ccx_step(l, 1, k, k1, 9, 5, 13);
    let k2 = ccx_bits(k1, 9, 5, 13);
    lemma_cx_step(l, 2, k, k2, 9, 5);
    let k3 = cx_bits(k2, 9, 5);
    lemma_ccx_step(l, 3, k, k3, 12, 5, 13);
    let k4 = ccx_bits(k3, 12, 5, 13);
    lemma_ccx_step(l, 4, k, k4, 10, 6, 14);
    let k5 = ccx_bits(k4, 10, 6, 14);
    lemma_cx_step(l, 5, k, k5, 10, 6);
    let k6 = cx_bits(k5, 10, 6);
    lemma_ccx_step(l, 6, k, k6, 13, 6, 14);
    let k7 = ccx_bits(k6, 13, 6, 14);
    lemma_cx_step(l, 7, k, k7, 11, 7);
    let k8 = cx_bits(k7, 11, 7);
    lemma_cx_step(l, 8, k, k8, 14, 7);
    let k9 = cx_bits(k8, 14, 7);
    lemma_ccx_step(l, 9, k, k9, 13, 6, 14);
    let k10 = ccx_bits(k9, 13, 6, 14);
    lemma_cx_step(l, 10, k, k10, 10, 6);
    let k11 = cx_bits(k10, 10, 6);
    lemma_ccx_step(l, 11, k, k11, 10, 6, 14);
    let k12 = ccx_bits(k11, 10, 6, 14);
    lemma_cx_step(l, 12, k, k12, 10, 6);
    let k13 = cx_bits(k12, 10, 6);
    lemma_cx_step(l, 13, k, k13, 13, 6);
    let k14 = cx_bits(k13, 13, 6);
    lemma_ccx_step(l, 14, k, k14, 12, 5, 13);
    let k15 = ccx_bits(k14, 12, 5, 13);
    lemma_cx_step(l, 15, k, k15, 9, 5);
    let k16 = cx_bits(k15, 9, 5);
    lemma_ccx_step(l, 16, k, k16, 9, 5, 13);
    let k17 = ccx_bits(k16, 9, 5, 13);
    lemma_cx_step(l, 17, k, k17, 9, 5);
    let k18 = cx_bits(k17, 9, 5);
    lemma_cx_step(l, 18, k, k18, 12, 5);
    let k19 = cx_bits(k18, 12, 5);
    lemma_ccx_step(l, 19, k, k19, 8, 4, 12);
    let k20 = ccx_bits(k19, 8, 4, 12);
    lemma_cx_step(l, 20, k, k20, 8, 4);
    assert(l.subrange(0, 21) =~= l);
}

/// The reversed adder of `a` into `b`.
spec fn undo_ab() -> Seq<Op> {
    seq![
        Op::CX(0, 4),
        Op::CCX(0, 4, 12),
        Op::CX(12, 5),
        Op::CX(1, 5),
        Op::CCX(1, 5, 13),
        Op::CX(1, 5),
        Op::CCX(12, 5, 13),
        Op::CX(13, 6),
        Op::CX(2, 6),
        Op::CCX(2, 6, 14),
        Op::CX(2, 6),
        Op::CCX(13, 6, 14),
        Op::CX(14, 7),
        Op::CX(3, 7),
        Op::CCX(13, 6, 14),
        Op::CX(2, 6),
        Op::CCX(2, 6, 14),
        Op::CCX(12, 5, 13),
        Op::CX(1, 5),
        Op::CCX(1, 5, 13),
        Op::CCX(0, 4, 12),
    ]
}

/// What `undo_ab` does to a basis string, gate by gate.
spec fn undo_ab_bits(k: u64) -> u64 {
    let k1 = cx_bits(k, 0, 4);
    let k2 = ccx_bits(k1, 0, 4, 12);
    let k3 = cx_bits(k2, 12, 5);
    let k4 = cx_bits(k3, 1, 5);
    let k5 = ccx_bits(k4, 1, 5, 13);
    let k6 = cx_bits(k5, 1, 5);
    let k7 = ccx_bits(k6, 12, 5, 13);
    let k8 = cx_bits(k7, 13, 6);
    let k9 = cx_bits(k8, 2, 6);
    let k10 = ccx_bits(k9, 2, 6, 14);
    let k11 = cx_bits(k10, 2, 6);
    let k12 = ccx_bits(k11, 13, 6, 14);
    let k13 = cx_bits(k12, 14, 7);
    let k14 = cx_bits(k13, 3, 7);
    let k15 = ccx_bits(k14, 13, 6, 14);
    let k16 = cx_bits(k15, 2, 6);
    let k17 = ccx_bits(k16, 2, 6, 14);
    let k18 = ccx_bits(k17, 12, 5, 13);
    let k19 = cx_bits(k18, 1, 5);
    let k20 = ccx_bits(k19, 1, 5, 13);
    ccx_bits(k20, 0, 4, 12)
}

#[verifier::rlimit(40)]
proof fn lemma_undo_ab_image(k: u64)
    ensures
        image_list(undo_ab(), k) == Ok::<u64, QitError>(undo_ab_bits(k)),
{
    let l = undo_ab();
    assert(l.subrange(0, 0) =~= Seq::<Op>::empty());
    lemma_cx_step(l, 0, k, k, 0, 4);
    let k1 = cx_bits(k, 0, 4);
    lemma_ccx_step(l, 1, k, k1, 0, 4, 12);
    let k2 = ccx_bits(k1, 0, 4, 12);
    lemma_cx_step(l, 2, k, k2, 12, 5);
    let k3 = cx_bits(k2, 12, 5);
    lemma_cx_step(l, 3, k, k3, 1, 5);
    let k4 = cx_bits(k3, 1, 5);
    lemma_ccx_step(l, 4, k, k4, 1, 5, 13);
    let k5 = ccx_bits(k4, 1, 5, 13);
    lemma_cx_step(l, 5, k, k5, 1, 5);
    let k6 = cx_bits(k5, 1, 5);
    lemma_ccx_step(l, 6, k, k6, 12, 5, 13);
    let k7 = ccx_bits(k6, 12, 5, 13);
    lemma_cx_step(l, 7, k, k7, 13, 6);
    let k8 = cx_bits(k7, 13, 6);
    lemma_cx_step(l, 8, k, k8, 2, 6);
    let k9 = cx_bits(k8, 2, 6);
    lemma_ccx_step(l, 9, k, k9, 2, 6, 14);
    let k10 = ccx_bits(k9, 2, 6, 14);
    lemma_cx_step(l, 10, k, k10, 2, 6);
    let k11 = cx_bits(k10, 2, 6);
    lemma_ccx_step(l, 11, k, k11, 13, 6, 14);
    let k12 = ccx_bits(k11, 13, 6, 14);
    lemma_cx_step(l, 12, k, k12, 14, 7);
    let k13 = cx_bits(k12, 14, 7);
    lemma_cx_step(l, 13, k, k13, 3, 7);
    let k14 = cx_bits(k13, 3, 7);
    lemma_ccx_step(l, 14, k, k14, 13, 6, 14);
    let k15 = ccx_bits(k14, 13, 6, 14);
    lemma_cx_step(l, 15, k, k15, 2, 6);
    let k16 = cx_bits(k15, 2, 6);
    lemma_ccx_step(l, 16, k, k16, 2, 6, 14);
    let k17 = ccx_bits(k16, 2, 6, 14);
    lemma_ccx_step(l, 17, k, k17, 12, 5, 13);
    let k18 = ccx_bits(k17, 12, 5, 13);
    lemma_cx_step(l, 18, k, k18, 1, 5);
    let k19 = cx_bits(k18, 1, 5);
    lemma_ccx_step(l, 19, k, k19, 1, 5, 13);
    let k20 = ccx_bits(k19, 1, 5, 13);
    lemma_ccx_step(l, 20, k, k20, 0, 4, 12);
    assert(l.subrange(0, 21) =~= l);
}

/// Clears the flag.
spec fn unflag() -> Seq<Op> {
    seq![
        Op::CX(7, 16),
    ]
}

/// What `unflag` does to a basis string, gate by gate.
spec fn unflag_bits(k: u64) -> u64 {
    cx_bits(k, 7, 16)
}

proof fn lemma_unflag_image(k: u64)
    ensures
        image_list(unflag(), k) == Ok::<u64, QitError>(unflag_bits(k)),
{
    let l = unflag();
    assert(l.subrange(0, 0) =~= Seq::<Op>::empty());
    lemma_cx_step(l, 0, k, k, 7, 16);
    assert(l.subrange(0, 1) =~= l);
}

/// `b += a mod 16`, with the carries restored to zero.
#[verifier::rlimit(40)]
proof fn lemma_sum_ab_value(k: u64)
    requires
        (k >> 12u64) & 15 == 0,
    ensures
        sum_ab_bits(k) == (k & !(15u64 << 4u64)) | ((((k & 15) + ((k >> 4u64) & 15)) as u64 % 16) << 4u64),
{
    let k1 = ccx_bits(k, 0, 4, 12);
    let k2 = ccx_bits(k1, 1, 5, 13);
    let k3 = cx_bits(k2, 1, 5);
    let k4 = ccx_bits(k3, 12, 5, 13);
    let k5 = ccx_bits(k4, 2, 6, 14);
    let k6 = cx_bits(k5, 2, 6);
    let k7 = ccx_bits(k6, 13, 6, 14);
    let k8 = cx_bits(k7, 3, 7);
    let k9 = cx_bits(k8, 14, 7);
    let k10 = ccx_bits(k9, 13, 6, 14);
    let k11 = cx_bits(k10, 2, 6);
    let k12 = ccx_bits(k11, 2, 6, 14);
    let k13 = cx_bits(k12, 2, 6);
    let k14 = cx_bits(k13, 13, 6);
    let k15 = ccx_bits(k14, 12, 5, 13);
    let k16 = cx_bits(k15, 1, 5);
    let k17 = ccx_bits(k16, 1, 5, 13);
    let k18 = cx_bits(k17, 1, 5);
    let k19 = cx_bits(k18, 12, 5);
    let k20 = ccx_bits(k19, 0, 4, 12);
    let k21 = cx_bits(k20, 0, 4);
    let r = (k & !(15u64 << 4u64)) | ((((k & 15) + ((k >> 4u64) & 15)) as u64 % 16) << 4u64);
    assert(k21 == r) by (bit_vector)
        requires
            (k >> 12u64) & 15 == 0,
            k1 == if (k >> 0u64) & 1 == 1 && (k >> 4u64) & 1 == 1 { k ^ (1u64 << 12u64) } else { k },
            k2 == if (k1 >> 1u64) & 1 == 1 && (k1 >> 5u64) & 1 == 1 { k1 ^ (1u64 << 13u64) } else { k1 },
            k3 == if (k2 >> 1u64) & 1 == 1 { k2 ^ (1u64 << 5u64) } else { k2 },
            k4 == if (k3 >> 12u64) & 1 == 1 && (k3 >> 5u64) & 1 == 1 { k3 ^ (1u64 << 13u64) } else { k3 },
            k5 == if (k4 >> 2u64) & 1 == 1 && (k4 >> 6u64) & 1 == 1 { k4 ^ (1u64 << 14u64) } else { k4 },
            k6 == if (k5 >> 2u64) & 1 == 1 { k5 ^ (1u64 << 6u64) } else { k5 },
            k7 == if (k6 >> 13u64) & 1 == 1 && (k6 >> 6u64) & 1 == 1 { k6 ^ (1u64 << 14u64) } else { k6 },
            k8 == if (k7 >> 3u64) & 1 == 1 { k7 ^ (1u64 << 7u64) } else { k7 },
            k9 == if (k8 >> 14u64) & 1 == 1 { k8 ^ (1u64 << 7u64) } else { k8 },
            k10 == if (k9 >> 13u64) & 1 == 1 && (k9 >> 6u64) & 1 == 1 { k9 ^ (1u64 << 14u64) } else { k9 },
            k11 == if (k10 >> 2u64) & 1 == 1 { k10 ^ (1u64 << 6u64) } else { k10 },
            k12 == if (k11 >> 2u64) & 1 == 1 && (k11 >> 6u64) & 1 == 1 { k11 ^ (1u64 << 14u64) } else { k11 },
            k13 == if (k12 >> 2u64) & 1 == 1 { k12 ^ (1u64 << 6u64) } else { k12 },
            k14 == if (k13 >> 13u64) & 1 == 1 { k13 ^ (1u64 << 6u64) } else { k13 },
            k15 == if (k14 >> 12u64) & 1 == 1 && (k14 >> 5u64) & 1 == 1 { k14 ^ (1u64 << 13u64) } else { k14 },
            k16 == if (k15 >> 1u64) & 1 == 1 { k15 ^ (1u64 << 5u64) } else { k15 },
            k17 == if (k16 >> 1u64) & 1 == 1 && (k16 >> 5u64) & 1 == 1 { k16 ^ (1u64 << 13u64) } else { k16 },
            k18 == if (k17 >> 1u64) & 1 == 1 { k17 ^ (1u64 << 5u64) } else { k17 },
            k19 == if (k18 >> 12u64) & 1 == 1 { k18 ^ (1u64 << 5u64) } else { k18 },
            k20 == if (k19 >> 0u64) & 1 == 1 && (k19 >> 4u64) & 1 == 1 { k19 ^ (1u64 << 12u64) } else { k19 },
            k21 == if (k20 >> 0u64) & 1 == 1 { k20 ^ (1u64 << 4u64) } else { k20 },
            r == (k & !(15u64 << 4u64)) | ((((k & 15) + ((k >> 4u64) & 15)) as u64 % 16) << 4u64),
    ;
}

/// `b -= n mod 16`, with the carries restored to zero.
#[verifier::rlimit(40)]
proof fn lemma_undo_nb_value(k: u64)
    requires
        (k >> 12u64) & 15 == 0,
    ensures
        undo_nb_bits(k) == (k & !(15u64 << 4u64)) | ((((((k >> 4u64) & 15) + 16 - ((k >> 8u64) & 15)) as u64) % 16) << 4u64),
{
    let k1 = cx_bits(k, 8, 4);
    let k2 = ccx_bits(k1, 8, 4, 12);
    let k3 = cx_bits(k2, 12, 5);
    let k4 = cx_bits(k3, 9, 5);
    let k5 = ccx_bits(k4, 9, 5, 13);
    let k6 = cx_bits(k5, 9, 5);
    let k7 = ccx_bits(k6, 12, 5, 13);
    let k8 = cx_bits(k7, 13, 6);
    let k9 = cx_bits(k8, 10, 6);
    let k10 = ccx_bits(k9, 10, 6, 14);
    let k11 = cx_bits(k10, 10, 6);
    let k12 = ccx_bits(k11, 13, 6, 14);
    let k13 = cx_bits(k12, 14, 7);
    let k14 = cx_bits(k13, 11, 7);
    let k15 = ccx_bits(k14, 13, 6, 14);
    let k16 = cx_bits(k15, 10, 6);
    let k17 = ccx_bits(k16, 10, 6, 14);
    let k18 = ccx_bits(k17, 12, 5, 13);
    let k19 = cx_bits(k18, 9, 5);
    let k20 = ccx_bits(k19, 9, 5, 13);
    let k21 = ccx_bits(k20, 8, 4, 12);
    let r = (k & !(15u64 << 4u64)) | ((((((k >> 4u64) & 15) + 16 - ((k >> 8u64) & 15)) as u64) % 16) << 4u64);
    assert(k21 == r) by (bit_vector)
        requires
            (k >> 12u64) & 15 == 0,
            k1 == if (k >> 8u64) & 1 == 1 { k ^ (1u64 << 4u64) } else { k },
            k2 == if (k1 >> 8u64) & 1 == 1 && (k1 >> 4u64) & 1 == 1 { k1 ^ (1u64 << 12u64) } else { k1 },
            k3 == if (k2 >> 12u64) & 1 == 1 { k2 ^ (1u64 << 5u64) } else { k2 },
            k4 == if (k3 >> 9u64) & 1 == 1 { k3 ^ (1u64 << 5u64) } else { k3 },
            k5 == if (k4 >> 9u64) & 1 == 1 && (k4 >> 5u64) & 1 == 1 { k4 ^ (1u64 << 13u64) } else { k4 },
            k6 == if (k5 >> 9u64) & 1 == 1 { k5 ^ (1u64 << 5u64) } else { k5 },
            k7 == if (k6 >> 12u64) & 1 == 1 && (k6 >> 5u64) & 1 == 1 { k6 ^ (1u64 << 13u64) } else { k6 },
            k8 == if (k7 >> 13u64) & 1 == 1 { k7 ^ (1u64 << 6u64) } else { k7 },
            k9 == if (k8 >> 10u64) & 1 == 1 { k8 ^ (1u64 << 6u64) } else { k8 },
            k10 == if (k9 >> 10u64) & 1 == 1 && (k9 >> 6u64) & 1 == 1 { k9 ^ (1u64 << 14u64) } else { k9 },
            k11 == if (k10 >> 10u64) & 1 == 1 { k10 ^ (1u64 << 6u64) } else { k10 },
            k12 == if (k11 >> 13u64) & 1 == 1 && (k11 >> 6u64) & 1 == 1 { k11 ^ (1u64 << 14u64) } else { k11 },
            k13 == if (k12 >> 14u64) & 1 == 1 { k12 ^ (1u64 << 7u64) } else { k12 },
            k14 == if (k13 >> 11u64) & 1 == 1 { k13 ^ (1u64 << 7u64) } else { k13 },
            k15 == if (k14 >> 13u64) & 1 == 1 && (k14 >> 6u64) & 1 == 1 { k14 ^ (1u64 << 14u64) } else { k14 },
            k16 == if (k15 >> 10u64) & 1 == 1 { k15 ^ (1u64 << 6u64) } else { k15 },
            k17 == if (k16 >> 10u64) & 1 == 1 && (k16 >> 6u64) & 1 == 1 { k16 ^ (1u64 << 14u64) } else { k16 },
            k18 == if (k17 >> 12u64) & 1 == 1 && (k17 >> 5u64) & 1 == 1 { k17 ^ (1u64 << 13u64) } else { k17 },
            k19 == if (k18 >> 9u64) & 1 == 1 { k18 ^ (1u64 << 5u64) } else { k18 },
            k20 == if (k19 >> 9u64) & 1 == 1 && (k19 >> 5u64) & 1 == 1 { k19 ^ (1u64 << 13u64) } else { k19 },
            k21 == if (k20 >> 8u64) & 1 == 1 && (k20 >> 4u64) & 1 == 1 { k20 ^ (1u64 << 12u64) } else { k20 },
            r == (k & !(15u64 << 4u64)) | ((((((k >> 4u64) & 15) + 16 - ((k >> 8u64) & 15)) as u64) % 16) << 4u64),
    ;
}

/// `b += n mod 16`, with the carries restored to zero.
#[verifier::rlimit(40)]
proof fn lemma_sum_nb_value(k: u64)
    requires
        (k >> 12u64) & 15 == 0,
    ensures
        sum_nb_bits(k) == (k & !(15u64 << 4u64)) | ((((((k >> 4u64) & 15) + ((k >> 8u64) & 15)) as u64) % 16) << 4u64),
{
    let k1 = ccx_bits(k, 8, 4, 12);
    let k2 = ccx_bits(k1, 9, 5, 13);
    let k3 = cx_bits(k2, 9, 5);
    let k4 = ccx_bits(k3, 12, 5, 13);
    let k5 = ccx_bits(k4, 10, 6, 14);
    let k6 = cx_bits(k5, 10, 6);
    let k7 = ccx_bits(k6, 13, 6, 14);
    let k8 = cx_bits(k7, 11, 7);
    let k9 = cx_bits(k8, 14, 7);
    let k10 = ccx_bits(k9, 13, 6, 14);
    let k11 = cx_bits(k10, 10, 6);
    let k12 = ccx_bits(k11, 10, 6, 14);
    let k13 = cx_bits(k12, 10, 6);
    let k14 = cx_bits(k13, 13, 6);
    let k15 = ccx_bits(k14, 12, 5, 13);
    let k16 = cx_bits(k15, 9, 5);
    let k17 = ccx_bits(k16, 9, 5, 13);
    let k18 = cx_bits(k17, 9, 5);
    let k19 = cx_bits(k18, 12, 5);
    let k20 = ccx_bits(k19, 8, 4, 12);
    let k21 = cx_bits(k20, 8, 4);
    let r = (k & !(15u64 << 4u64)) | ((((((k >> 4u64) & 15) + ((k >> 8u64) & 15)) as u64) % 16) << 4u64);
    assert(k21 == r) by (bit_vector)
        requires
            (k >> 12u64) & 15 == 0,
            k1 == if (k >> 8u64) & 1 == 1 && (k >> 4u64) & 1 == 1 { k ^ (1u64 << 12u64) } else { k },
            k2 == if (k1 >> 9u64) & 1 == 1 && (k1 >> 5u64) & 1 == 1 { k1 ^ (1u64 << 13u64) } else { k1 },
            k3 == if (k2 >> 9u64) & 1 == 1 { k2 ^ (1u64 << 5u64) } else { k2 },
            k4 == if (k3 >> 12u64) & 1 == 1 && (k3 >> 5u64) & 1 == 1 { k3 ^ (1u64 << 13u64) } else { k3 },
            k5 == if (k4 >> 10u64) & 1 == 1 && (k4 >> 6u64) & 1 == 1 { k4 ^ (1u64 << 14u64) } else { k4 },
            k6 == if (k5 >> 10u64) & 1 == 1 { k5 ^ (1u64 << 6u64) } else { k5 },
            k7 == if (k6 >> 13u64) & 1 == 1 && (k6 >> 6u64) & 1 == 1 { k6 ^ (1u64 << 14u64) } else { k6 },
            k8 == if (k7 >> 11u64) & 1 == 1 { k7 ^ (1u64 << 7u64) } else { k7 },
            k9 == if (k8 >> 14u64) & 1 == 1 { k8 ^ (1u64 << 7u64) } else { k8 },
            k10 == if (k9 >> 13u64) & 1 == 1 && (k9 >> 6u64) & 1 == 1 { k9 ^ (1u64 << 14u64) } else { k9 },
            k11 == if (k10 >> 10u64) & 1 == 1 { k10 ^ (1u64 << 6u64) } else { k10 },
            k12 == if (k11 >> 10u64) & 1 == 1 && (k11 >> 6u64) & 1 == 1 { k11 ^ (1u64 << 14u64) } else { k11 },
            k13 == if (k12 >> 10u64) & 1 == 1 { k12 ^ (1u64 << 6u64) } else { k12 },
            k14 == if (k13 >> 13u64) & 1 == 1 { k13 ^ (1u64 << 6u64) } else { k13 },
            k15 == if (k14 >> 12u64) & 1 == 1 && (k14 >> 5u64) & 1 == 1 { k14 ^ (1u64 << 13u64) } else { k14 },
            k16 == if (k15 >> 9u64) & 1 == 1 { k15 ^ (1u64 << 5u64) } else { k15 },
            k17 == if (k16 >> 9u64) & 1 == 1 && (k16 >> 5u64) & 1 == 1 { k16 ^ (1u64 << 13u64) } else { k16 },
            k18 == if (k17 >> 9u64) & 1 == 1 { k17 ^ (1u64 << 5u64) } else { k17 },
            k19 == if (k18 >> 12u64) & 1 == 1 { k18 ^ (1u64 << 5u64) } else { k18 },
            k20 == if (k19 >> 8u64) & 1 == 1 && (k19 >> 4u64) & 1 == 1 { k19 ^ (1u64 << 12u64) } else { k19 },
            k21 == if (k20 >> 8u64) & 1 == 1 { k20 ^ (1u64 << 4u64) } else { k20 },
            r == (k & !(15u64 << 4u64)) | ((((((k >> 4u64) & 15) + ((k >> 8u64) & 15)) as u64) % 16) << 4u64),
    ;
}

/// `b -= a mod 16`, with the carries restored to zero.
#[verifier::rlimit(40)]
proof fn lemma_undo_ab_value(k: u64)
    requires
        (k >> 12u64) & 15 == 0,
    ensures
        undo_ab_bits(k) == (k & !(15u64 << 4u64)) | ((((((k >> 4u64) & 15) + 16 - (k & 15)) as u64) % 16) << 4u64),
{
    let k1 = cx_bits(k, 0, 4);
    let k2 = ccx_bits(k1, 0, 4, 12);
    let k3 = cx_bits(k2, 12, 5);
    let k4 = cx_bits(k3, 1, 5);
    let k5 = ccx_bits(k4, 1, 5, 13);
    let k6 = cx_bits(k5, 1, 5);
    let k7 = ccx_bits(k6, 12, 5, 13);
    let k8 = cx_bits(k7, 13, 6);
    let k9 = cx_bits(k8, 2, 6);
    let k10 = ccx_bits(k9, 2, 6, 14);
    let k11 = cx_bits(k10, 2, 6);
    let k12 = ccx_bits(k11, 13, 6, 14);
    let k13 = cx_bits(k12, 14, 7);
    let k14 = cx_bits(k13, 3, 7);
    let k15 = ccx_bits(k14, 13, 6, 14);
    let k16 = cx_bits(k15, 2, 6);
    let k17 = ccx_bits(k16, 2, 6, 14);
    let k18 = ccx_bits(k17, 12, 5, 13);
    let k19 = cx_bits(k18, 1, 5);
    let k20 = ccx_bits(k19, 1, 5, 13);
    let k21 = ccx_bits(k20, 0, 4, 12);
    let r = (k & !(15u64 << 4u64)) | ((((((k >> 4u64) & 15) + 16 - (k & 15)) as u64) % 16) << 4u64);
    assert(k21 == r) by (bit_vector)
        requires
            (k >> 12u64) & 15 == 0,
            k1 == if (k >> 0u64) & 1 == 1 { k ^ (1u64 << 4u64) } else { k },
            k2 == if (k1 >> 0u64) & 1 == 1 && (k1 >> 4u64) & 1 == 1 { k1 ^ (1u64 << 12u64) } else { k1 },
            k3 == if (k2 >> 12u64) & 1 == 1 { k2 ^ (1u64 << 5u64) } else { k2 },
            k4 == if (k3 >> 1u64) & 1 == 1 { k3 ^ (1u64 << 5u64) } else { k3 },
            k5 == if (k4 >> 1u64) & 1 == 1 && (k4 >> 5u64) & 1 == 1 { k4 ^ (1u64 << 13u64) } else { k4 },
            k6 == if (k5 >> 1u64) & 1 == 1 { k5 ^ (1u64 << 5u64) } else { k5 },
            k7 == if (k6 >> 12u64) & 1 == 1 && (k6 >> 5u64) & 1 == 1 { k6 ^ (1u64 << 13u64) } else { k6 },
            k8 == if (k7 >> 13u64) & 1 == 1 { k7 ^ (1u64 << 6u64) } else { k7 },
            k9 == if (k8 >> 2u64) & 1 == 1 { k8 ^ (1u64 << 6u64) } else { k8 },
            k10 == if (k9 >> 2u64) & 1 == 1 && (k9 >> 6u64) & 1 == 1 { k9 ^ (1u64 << 14u64) } else { k9 },
            k11 == if (k10 >> 2u64) & 1 == 1 { k10 ^ (1u64 << 6u64) } else { k10 },
            k12 == if (k11 >> 13u64) & 1 == 1 && (k11 >> 6u64) & 1 == 1 { k11 ^ (1u64 << 14u64) } else { k11 },
            k13 == if (k12 >> 14u64) & 1 == 1 { k12 ^ (1u64 << 7u64) } else { k12 },
            k14 == if (k13 >> 3u64) & 1 == 1 { k13 ^ (1u64 << 7u64) } else { k13 },
            k15 == if (k14 >> 13u64) & 1 == 1 && (k14 >> 6u64) & 1 == 1 { k14 ^ (1u64 << 14u64) } else { k14 },
            k16 == if (k15 >> 2u64) & 1 == 1 { k15 ^ (1u64 << 6u64) } else { k15 },
            k17 == if (k16 >> 2u64) & 1 == 1 && (k16 >> 6u64) & 1 == 1 { k16 ^ (1u64 << 14u64) } else { k16 },
            k18 == if (k17 >> 12u64) & 1 == 1 && (k17 >> 5u64) & 1 == 1 { k17 ^ (1u64 << 13u64) } else { k17 },
            k19 == if (k18 >> 1u64) & 1 == 1 { k18 ^ (1u64 << 5u64) } else { k18 },
            k20 == if (k19 >> 1u64) & 1 == 1 && (k19 >> 5u64) & 1 == 1 { k19 ^ (1u64 << 13u64) } else { k19 },
            k21 == if (k20 >> 0u64) & 1 == 1 && (k20 >> 4u64) & 1 == 1 { k20 ^ (1u64 << 12u64) } else { k20 },
            r == (k & !(15u64 << 4u64)) | ((((((k >> 4u64) & 15) + 16 - (k & 15)) as u64) % 16) << 4u64),
    ;
}

proof fn lemma_reversed_leaves(gs: Seq<Op>)
    requires
        forall|i: int| 0 <= i < gs.len() ==> reversed(#[trigger] gs[i]) == gs[i],
    ensures
        reversed_list(gs) == Seq::new(gs.len(), |i: int| gs[gs.len() - 1 - i]),
    decreases gs.len(),
{
    if gs.len() > 0 {
        let init = gs.drop_last();
        assert forall|i: int| 0 <= i < init.len() implies reversed(#[trigger] init[i]) == init[i] by {
            assert(init[i] == gs[i]);
        }
        lemma_reversed_leaves(init);
        assert(reversed(gs[gs.len() - 1]) == gs[gs.len() - 1]);
        assert(reversed_list(gs) =~= Seq::new(gs.len(), |i: int| gs[gs.len() - 1 - i]));
    } else {
        assert(reversed_list(gs) =~= Seq::new(gs.len(), |i: int| gs[gs.len() - 1 - i]));
    }
}

#[verifier::rlimit(40)]
proof fn lemma_sum_ab_ops()
    ensures
        adder_ops(seq![0, 1, 2, 3], seq![4, 5, 6, 7], seq![12, 13, 14, 15]) == sum_ab(),
{
    let b: Seq<usize> = seq![4, 5, 6, 7];
    let z: Seq<usize> = seq![12, 13, 14, 15];
    let a: Seq<usize> = seq![0, 1, 2, 3];
    let n: Seq<usize> = seq![8, 9, 10, 11];
    assert(forward_ops(a, b, z, 1) == Seq::<Op>::empty());
    assert(forward_ops(a, b, z, 4) =~= forward_ops(a, b, z, 3) + forward_block(a, b, z, 3));
    assert(forward_ops(a, b, z, 3) =~= forward_ops(a, b, z, 2) + forward_block(a, b, z, 2));
    assert(forward_ops(a, b, z, 2) =~= forward_block(a, b, z, 1));
    assert(backward_ops(a, b, z, 2) == Seq::<Op>::empty());
    assert(backward_ops(a, b, z, 3) =~= backward_block(a, b, z, 2));
    assert(backward_ops(a, b, z, 4) =~= backward_block(a, b, z, 2) + backward_block(a, b, z, 1));
    assert(adder_ops(a, b, z) =~= sum_ab());
}

#[verifier::rlimit(40)]
proof fn lemma_sum_nb_ops()
    ensures
        adder_ops(seq![8, 9, 10, 11], seq![4, 5, 6, 7], seq![12, 13, 14, 15]) == sum_nb(),
{
    let b: Seq<usize> = seq![4, 5, 6, 7];
    let z: Seq<usize> = seq![12, 13, 14, 15];
    let a: Seq<usize> = seq![0, 1, 2, 3];
    let n: Seq<usize> = seq![8, 9, 10, 11];
    assert(forward_ops(n, b, z, 1) == Seq::<Op>::empty());
    assert(forward_ops(n, b, z, 4) =~= forward_ops(n, b, z, 3) + forward_block(n, b, z, 3));
    assert(forward_ops(n, b, z, 3) =~= forward_ops(n, b, z, 2) + forward_block(n, b, z, 2));
    assert(forward_ops(n, b, z, 2) =~= forward_block(n, b, z, 1));
    assert(backward_ops(n, b, z, 2) == Seq::<Op>::empty());
    assert(backward_ops(n, b, z, 3) =~= backward_block(n, b, z, 2));
    assert(backward_ops(n, b, z, 4) =~= backward_block(n, b, z, 2) + backward_block(n, b, z, 1));
    assert(adder_ops(n, b, z) =~= sum_nb());
}

#[verifier::rlimit(40)]
proof fn lemma_undo_ab_ops()
    ensures
        reversed_list(sum_ab()) == undo_ab(),
{
    assert forall|i: int| 0 <= i < 21 implies reversed(#[trigger] sum_ab()[i]) == sum_ab()[i] by {
        if i == 0 {
        } else if i == 1 {
        } else if i == 2 {
        } else if i == 3 {
        } else if i == 4 {
        } else if i == 5 {
        } else if i == 6 {
        } else if i == 7 {
        } else if i == 8 {
        } else if i == 9 {
        } else if i == 10 {
        } else if i == 11 {
        } else if i == 12 {
        } else if i == 13 {
        } else if i == 14 {
        } else if i == 15 {
        } else if i == 16 {
        } else if i == 17 {
        } else if i == 18 {
        } else if i == 19 {
        } else if i == 20 {
        }
    }
    lemma_reversed_leaves(sum_ab());
    assert(reversed_list(sum_ab()) =~= undo_ab());
}

#[verifier::rlimit(40)]
proof fn lemma_undo_nb_ops()
    ensures
        reversed_list(sum_nb()) == undo_nb(),
{
    assert forall|i: int| 0 <= i < 21 implies reversed(#[trigger] sum_nb()[i]) == sum_nb()[i] by {
        if i == 0 {
        } else if i == 1 {
        } else if i == 2 {
        } else if i == 3 {
        } else if i == 4 {
        } else if i == 5 {
        } else if i == 6 {
        } else if i == 7 {
        } else if i == 8 {
        } else if i == 9 {
        } else if i == 10 {
        } else if i == 11 {
        } else if i == 12 {
        } else if i == 13 {
        } else if i == 14 {
        } else if i == 15 {
        } else if i == 16 {
        } else if i == 17 {
        } else if i == 18 {
        } else if i == 19 {
        } else if i == 20 {
        }
    }
    lemma_reversed_leaves(sum_nb());
    assert(reversed_list(sum_nb()) =~= undo_nb());
}

proof fn lemma_load_ops()
    ensures
        load_ops(16, seq![8, 9, 10, 11], 7, 4) == load(),
{
    let n: Seq<usize> = seq![8, 9, 10, 11];
    assert(((7u64 >> 0u64) & 1 == 1) && ((7u64 >> 1u64) & 1 == 1) && ((7u64 >> 2u64) & 1 == 1)
        && !((7u64 >> 3u64) & 1 == 1)) by (bit_vector);
    assert(load_ops(16, n, 7, 0) == Seq::<Op>::empty());
    assert(load_ops(16, n, 7, 1) =~= seq![Op::CX(16, 8)]);
    assert(load_ops(16, n, 7, 2) =~= seq![Op::CX(16, 8), Op::CX(16, 9)]);
    assert(load_ops(16, n, 7, 3) =~= seq![Op::CX(16, 8), Op::CX(16, 9), Op::CX(16, 10)]);
    assert(load_ops(16, n, 7, 4) =~= load());
}

proof fn lemma_four_bit_adders()
    ensures
        adder_ops(seq![0, 1, 2, 3], seq![4, 5, 6, 7], seq![12, 13, 14, 15]) == sum_ab(),
        adder_ops(seq![8, 9, 10, 11], seq![4, 5, 6, 7], seq![12, 13, 14, 15]) == sum_nb(),
        reversed_list(sum_ab()) == undo_ab(),
        reversed_list(sum_nb()) == undo_nb(),
        load_ops(16, seq![8, 9, 10, 11], 7, 4) == load(),
{
    lemma_sum_ab_ops();
    lemma_sum_nb_ops();
    lemma_undo_ab_ops();
    lemma_undo_nb_ops();
    lemma_load_ops();
}

#[verifier::rlimit(40)]
proof fn lemma_mod_add_seven_values(a: u64, b: u64, k0: u64, k1: u64, k2: u64, k3: u64, k4: u64, k5: u64, k6: u64, k7: u64, k8: u64, k9: u64, s: u64)
    requires
        a < 7,
        b < 7,
        s == (a + b) % 7,
        k0 == a | (b << 4u64) | (7u64 << 8u64),
        k1 == (k0 & !(15u64 << 4u64)) | ((((k0 & 15) + ((k0 >> 4u64) & 15)) as u64 % 16) << 4u64),
        k2 == (k1 & !(15u64 << 4u64)) | ((((((k1 >> 4u64) & 15) + 16 - ((k1 >> 8u64) & 15)) as u64) % 16) << 4u64),
        k3 == ((if ((k2 ^ (1u64 << 7u64)) >> 7u64) & 1 == 1 { (k2 ^ (1u64 << 7u64)) ^ (1u64 << 16u64) } else { (k2 ^ (1u64 << 7u64)) }) ^ (1u64 << 7u64)),
        k4 == (if ((if ((if (k3 >> 16u64) & 1 == 1 { k3 ^ (1u64 << 8u64) } else { k3 }) >> 16u64) & 1 == 1 { (if (k3 >> 16u64) & 1 == 1 { k3 ^ (1u64 << 8u64) } else { k3 }) ^ (1u64 << 9u64) } else { (if (k3 >> 16u64) & 1 == 1 { k3 ^ (1u64 << 8u64) } else { k3 }) }) >> 16u64) & 1 == 1 { (if ((if (k3 >> 16u64) & 1 == 1 { k3 ^ (1u64 << 8u64) } else { k3 }) >> 16u64) & 1 == 1 { (if (k3 >> 16u64) & 1 == 1 { k3 ^ (1u64 << 8u64) } else { k3 }) ^ (1u64 << 9u64) } else { (if (k3 >> 16u64) & 1 == 1 { k3 ^ (1u64 << 8u64) } else { k3 }) }) ^ (1u64 << 10u64) } else { (if ((if (k3 >> 16u64) & 1 == 1 { k3 ^ (1u64 << 8u64) } else { k3 }) >> 16u64) & 1 == 1 { (if (k3 >> 16u64) & 1 == 1 { k3 ^ (1u64 << 8u64) } else { k3 }) ^ (1u64 << 9u64) } else { (if (k3 >> 16u64) & 1 == 1 { k3 ^ (1u64 << 8u64) } else { k3 }) }) }),
        k5 == (k4 & !(15u64 << 4u64)) | ((((((k4 >> 4u64) & 15) + ((k4 >> 8u64) & 15)) as u64) % 16) << 4u64),
        k6 == (if ((if ((if (k5 >> 16u64) & 1 == 1 { k5 ^ (1u64 << 8u64) } else { k5 }) >> 16u64) & 1 == 1 { (if (k5 >> 16u64) & 1 == 1 { k5 ^ (1u64 << 8u64) } else { k5 }) ^ (1u64 << 9u64) } else { (if (k5 >> 16u64) & 1 == 1 { k5 ^ (1u64 << 8u64) } else { k5 }) }) >> 16u64) & 1 == 1 { (if ((if (k5 >> 16u64) & 1 == 1 { k5 ^ (1u64 << 8u64) } else { k5 }) >> 16u64) & 1 == 1 { (if (k5 >> 16u64) & 1 == 1 { k5 ^ (1u64 << 8u64) } else { k5 }) ^ (1u64 << 9u64) } else { (if (k5 >> 16u64) & 1 == 1 { k5 ^ (1u64 << 8u64) } else { k5 }) }) ^ (1u64 << 10u64) } else { (if ((if (k5 >> 16u64) & 1 == 1 { k5 ^ (1u64 << 8u64) } else { k5 }) >> 16u64) & 1 == 1 { (if (k5 >> 16u64) & 1 == 1 { k5 ^ (1u64 << 8u64) } else { k5 }) ^ (1u64 << 9u64) } else { (if (k5 >> 16u64) & 1 == 1 { k5 ^ (1u64 << 8u64) } else { k5 }) }) }),
        k7 == (k6 & !(15u64 << 4u64)) | ((((((k6 >> 4u64) & 15) + 16 - (k6 & 15)) as u64) % 16) << 4u64),
        k8 == (if (k7 >> 7u64) & 1 == 1 { k7 ^ (1u64 << 16u64) } else { k7 }),
        k9 == (k8 & !(15u64 << 4u64)) | ((((k8 & 15) + ((k8 >> 4u64) & 15)) as u64 % 16) << 4u64),
    ensures
        k9 == a | (s << 4u64) | (7u64 << 8u64),
{
    assert(k9 == a | (s << 4u64) | (7u64 << 8u64)) by (bit_vector)
        requires
            a < 7,
            b < 7,
            s == ((a + b) as u64) % 7,
            k0 == a | (b << 4u64) | (7u64 << 8u64),
            k1 == (k0 & !(15u64 << 4u64)) | ((((k0 & 15) + ((k0 >> 4u64) & 15)) as u64 % 16) << 4u64),
            k2 == (k1 & !(15u64 << 4u64)) | ((((((k1 >> 4u64) & 15) + 16 - ((k1 >> 8u64) & 15)) as u64) % 16) << 4u64),
            k3 == ((if ((k2 ^ (1u64 << 7u64)) >> 7u64) & 1 == 1 { (k2 ^ (1u64 << 7u64)) ^ (1u64 << 16u64) } else { (k2 ^ (1u64 << 7u64)) }) ^ (1u64 << 7u64)),
            k4 == (if ((if ((if (k3 >> 16u64) & 1 == 1 { k3 ^ (1u64 << 8u64) } else { k3 }) >> 16u64) & 1 == 1 { (if (k3 >> 16u64) & 1 == 1 { k3 ^ (1u64 << 8u64) } else { k3 }) ^ (1u64 << 9u64) } else { (if (k3 >> 16u64) & 1 == 1 { k3 ^ (1u64 << 8u64) } else { k3 }) }) >> 16u64) & 1 == 1 { (if ((if (k3 >> 16u64) & 1 == 1 { k3 ^ (1u64 << 8u64) } else { k3 }) >> 16u64) & 1 == 1 { (if (k3 >> 16u64) & 1 == 1 { k3 ^ (1u64 << 8u64) } else { k3 }) ^ (1u64 << 9u64) } else { (if (k3 >> 16u64) & 1 == 1 { k3 ^ (1u64 << 8u64) } else { k3 }) }) ^ (1u64 << 10u64) } else { (if ((if (k3 >> 16u64) & 1 == 1 { k3 ^ (1u64 << 8u64) } else { k3 }) >> 16u64) & 1 == 1 { (if (k3 >> 16u64) & 1 == 1 { k3 ^ (1u64 << 8u64) } else { k3 }) ^ (1u64 << 9u64) } else { (if (k3 >> 16u64) & 1 == 1 { k3 ^ (1u64 << 8u64) } else { k3 }) }) }),
            k5 == (k4 & !(15u64 << 4u64)) | ((((((k4 >> 4u64) & 15) + ((k4 >> 8u64) & 15)) as u64) % 16) << 4u64),
            k6 == (if ((if ((if (k5 >> 16u64) & 1 == 1 { k5 ^ (1u64 << 8u64) } else { k5 }) >> 16u64) & 1 == 1 { (if (k5 >> 16u64) & 1 == 1 { k5 ^ (1u64 << 8u64) } else { k5 }) ^ (1u64 << 9u64) } else { (if (k5 >> 16u64) & 1 == 1 { k5 ^ (1u64 << 8u64) } else { k5 }) }) >> 16u64) & 1 == 1 { (if ((if (k5 >> 16u64) & 1 == 1 { k5 ^ (1u64 << 8u64) } else { k5 }) >> 16u64) & 1 == 1 { (if (k5 >> 16u64) & 1 == 1 { k5 ^ (1u64 << 8u64) } else { k5 }) ^ (1u64 << 9u64) } else { (if (k5 >> 16u64) & 1 == 1 { k5 ^ (1u64 << 8u64) } else { k5 }) }) ^ (1u64 << 10u64) } else { (if ((if (k5 >> 16u64) & 1 == 1 { k5 ^ (1u64 << 8u64) } else { k5 }) >> 16u64) & 1 == 1 { (if (k5 >> 16u64) & 1 == 1 { k5 ^ (1u64 << 8u64) } else { k5 }) ^ (1u64 << 9u64) } else { (if (k5 >> 16u64) & 1 == 1 { k5 ^ (1u64 << 8u64) } else { k5 }) }) }),
            k7 == (k6 & !(15u64 << 4u64)) | ((((((k6 >> 4u64) & 15) + 16 - (k6 & 15)) as u64) % 16) << 4u64),
            k8 == (if (k7 >> 7u64) & 1 == 1 { k7 ^ (1u64 << 16u64) } else { k7 }),
            k9 == (k8 & !(15u64 << 4u64)) | ((((k8 & 15) + ((k8 >> 4u64) & 15)) as u64 % 16) << 4u64),
    ;
}

/// The modular adder over `a = [0, 1, 2, 3]`, `b = [4, 5, 6, 7]`, the
/// modulus register `[8, 9, 10, 11]` holding 7, the carries
/// `[12, 13, 14, 15]` and the flag 16 sends `|a>|b>|7>|0>|0>` to
/// `|a>|a + b mod 7>|7>|0>|0>` for every `a, b < 7`: the modulus register,
/// the carries and the flag are restored.
#[verifier::rlimit(40)]
pub proof fn lemma_mod_add_seven(a: u64, b: u64)
    requires
        a < 7,
        b < 7,
    ensures
        image(
            Op::U(
                mod_add_ops(
                    seq![0, 1, 2, 3],
                    seq![4, 5, 6, 7],
                    seq![8, 9, 10, 11],
                    seq![12, 13, 14, 15],
                    16,
                    7,
                ),
            ),
            a | (b << 4u64) | (7u64 << 8u64),
        ) == Ok::<u64, QitError>(a | ((((a + b) % 7) as u64) << 4u64) | (7u64 << 8u64)),
{
    lemma_four_bit_adders();
    let rb: Seq<usize> = seq![4, 5, 6, 7];
    assert(rb.last() == 7);
    let whole = mod_add_ops(
        seq![0, 1, 2, 3],
        rb,
        seq![8, 9, 10, 11],
        seq![12, 13, 14, 15],
        16,
        7,
    );
    assert(flag() =~= seq![Op::X(7), Op::CX(7, 16), Op::X(7)]);
    assert(unflag() =~= seq![Op::CX(7, 16)]);
    let p1 = sum_ab();
    let p2 = p1 + undo_nb();
    let p3 = p2 + flag();
    let p4 = p3 + load();
    let p5 = p4 + sum_nb();
    let p6 = p5 + load();
    let p7 = p6 + undo_ab();
    let p8 = p7 + unflag();
    let p9 = p8 + sum_ab();
    assert(whole == p9);
    let k0 = a | (b << 4u64) | (7u64 << 8u64);
    assert((k0 >> 12u64) & 15 == 0) by (bit_vector)
        requires
            a < 7,
            b < 7,
            k0 == a | (b << 4u64) | (7u64 << 8u64),
    ;
    lemma_sum_ab_image(k0);
    lemma_sum_ab_value(k0);
    let k1 = sum_ab_bits(k0);
    assert((k1 >> 12u64) & 15 == 0) by (bit_vector)
        requires
            (k0 >> 12u64) & 15 == 0,
            k1 == (k0 & !(15u64 << 4u64)) | ((((k0 & 15) + ((k0 >> 4u64) & 15)) as u64 % 16) << 4u64),
    ;
    lemma_undo_nb_image(k1);
    lemma_undo_nb_value(k1);
    lemma_image_list_append(p1, undo_nb(), k0);
    let k2 = undo_nb_bits(k1);
    lemma_flag_image(k2);
    lemma_image_list_append(p2, flag(), k0);
    let k3 = flag_bits(k2);
    lemma_load_image(k3);
    lemma_image_list_append(p3, load(), k0);
    let k4 = load_bits(k3);
    assert((k4 >> 12u64) & 15 == 0) by (bit_vector)
        requires
            (k1 >> 12u64) & 15 == 0,
            k2 == (k1 & !(15u64 << 4u64)) | ((((((k1 >> 4u64) & 15) + 16 - ((k1 >> 8u64) & 15)) as u64) % 16) << 4u64),
            k3 == ((if ((k2 ^ (1u64 << 7u64)) >> 7u64) & 1 == 1 { (k2 ^ (1u64 << 7u64)) ^ (1u64 << 16u64) } else { (k2 ^ (1u64 << 7u64)) }) ^ (1u64 << 7u64)),
            k4 == (if ((if ((if (k3 >> 16u64) & 1 == 1 { k3 ^ (1u64 << 8u64) } else { k3 }) >> 16u64) & 1 == 1 { (if (k3 >> 16u64) & 1 == 1 { k3 ^ (1u64 << 8u64) } else { k3 }) ^ (1u64 << 9u64) } else { (if (k3 >> 16u64) & 1 == 1 { k3 ^ (1u64 << 8u64) } else { k3 }) }) >> 16u64) & 1 == 1 { (if ((if (k3 >> 16u64) & 1 == 1 { k3 ^ (1u64 << 8u64) } else { k3 }) >> 16u64) & 1 == 1 { (if (k3 >> 16u64) & 1 == 1 { k3 ^ (1u64 << 8u64) } else { k3 }) ^ (1u64 << 9u64) } else { (if (k3 >> 16u64) & 1 == 1 { k3 ^ (1u64 << 8u64) } else { k3 }) }) ^ (1u64 << 10u64) } else { (if ((if (k3 >> 16u64) & 1 == 1 { k3 ^ (1u64 << 8u64) } else { k3 }) >> 16u64) & 1 == 1 { (if (k3 >> 16u64) & 1 == 1 { k3 ^ (1u64 << 8u64) } else { k3 }) ^ (1u64 << 9u64) } else { (if (k3 >> 16u64) & 1 == 1 { k3 ^ (1u64 << 8u64) } else { k3 }) }) }),
    ;
    lemma_sum_nb_image(k4);
    lemma_sum_nb_value(k4);
    lemma_image_list_append(p4, sum_nb(), k0);
    let k5 = sum_nb_bits(k4);
    lemma_load_image(k5);
    lemma_image_list_append(p5, load(), k0);
    let k6 = load_bits(k5);
    assert((k6 >> 12u64) & 15 == 0) by (bit_vector)
        requires
            (k4 >> 12u64) & 15 == 0,
            k5 == (k4 & !(15u64 << 4u64)) | ((((((k4 >> 4u64) & 15) + ((k4 >> 8u64) & 15)) as u64) % 16) << 4u64),
            k6 == (if ((if ((if (k5 >> 16u64) & 1 == 1 { k5 ^ (1u64 << 8u64) } else { k5 }) >> 16u64) & 1 == 1 { (if (k5 >> 16u64) & 1 == 1 { k5 ^ (1u64 << 8u64) } else { k5 }) ^ (1u64 << 9u64) } else { (if (k5 >> 16u64) & 1 == 1 { k5 ^ (1u64 << 8u64) } else { k5 }) }) >> 16u64) & 1 == 1 { (if ((if (k5 >> 16u64) & 1 == 1 { k5 ^ (1u64 << 8u64) } else { k5 }) >> 16u64) & 1 == 1 { (if (k5 >> 16u64) & 1 == 1 { k5 ^ (1u64 << 8u64) } else { k5 }) ^ (1u64 << 9u64) } else { (if (k5 >> 16u64) & 1 == 1 { k5 ^ (1u64 << 8u64) } else { k5 }) }) ^ (1u64 << 10u64) } else { (if ((if (k5 >> 16u64) & 1 == 1 { k5 ^ (1u64 << 8u64) } else { k5 }) >> 16u64) & 1 == 1 { (if (k5 >> 16u64) & 1 == 1 { k5 ^ (1u64 << 8u64) } else { k5 }) ^ (1u64 << 9u64) } else { (if (k5 >> 16u64) & 1 == 1 { k5 ^ (1u64 << 8u64) } else { k5 }) }) }),
    ;
    lemma_undo_ab_image(k6);
    lemma_undo_ab_value(k6);
    lemma_image_list_append(p6, undo_ab(), k0);
    let k7 = undo_ab_bits(k6);
    lemma_unflag_image(k7);
    lemma_image_list_append(p7, unflag(), k0);
    let k8 = unflag_bits(k7);
    assert((k8 >> 12u64) & 15 == 0) by (bit_vector)
        requires
            (k6 >> 12u64) & 15 == 0,
            k7 == (k6 & !(15u64 << 4u64)) | ((((((k6 >> 4u64) & 15) + 16 - (k6 & 15)) as u64) % 16) << 4u64),
            k8 == (if (k7 >> 7u64) & 1 == 1 { k7 ^ (1u64 << 16u64) } else { k7 }),
    ;
    lemma_sum_ab_image(k8);
    lemma_sum_ab_value(k8);
    lemma_image_list_append(p8, sum_ab(), k0);
    let k9 = sum_ab_bits(k8);
    let s = ((a + b) % 7) as u64;
    lemma_mod_add_seven_values(a, b, k0, k1, k2, k3, k4, k5, k6, k7, k8, k9, s);
}

} // verus!
