//! What the ripple-carry adder does, for registers of any width: the sum
//! lands in `b`, and `a` and the carries are unchanged.
use crate::circuits::{adder_ops, backward_block, backward_ops, forward_block, forward_ops};
use crate::const_adder_law::{in_range, lemma_reg_bound, lemma_reg_prefix, reg_value};
use crate::error::QitError;
use crate::gates::{
    bit, claim, flip, leaf_claims, image, image_list, reversed_list, schedule, schedule_list, lemma_flip_bit, lemma_image_ccx, lemma_image_cx, Op,
};
use vstd::arithmetic::div_mod::*;
use vstd::arithmetic::power2::*;
use crate::reversal::{lemma_image_list_append, lemma_reversed_list_undoes};
use vstd::prelude::*;

verus! {

/// The carry into bit `i` when the registers `a` and `b` of `k` are added.
pub open spec fn carry_into(k: u64, a: Seq<usize>, b: Seq<usize>, i: nat) -> bool
    decreases i,
{
    if i == 0 {
        false
    } else {
        let j = (i - 1) as int;
        let (x, y, c) = (bit(k, a[j]), bit(k, b[j]), carry_into(k, a, b, (i - 1) as nat));
        (x && y) || (c && (x != y))
    }
}

/// Bit `i` of the sum of the registers `a` and `b` of `k`.
pub open spec fn sum_bit(k: u64, a: Seq<usize>, b: Seq<usize>, i: int) -> bool {
    (bit(k, a[i]) != bit(k, b[i])) != carry_into(k, a, b, i as nat)
}

/// Every qubit of `s` holds the bit `e` gives for its position, and every
/// qubit outside `s` is as in `k`.
pub open spec fn holds(k: u64, k2: u64, s: Seq<usize>, e: spec_fn(int) -> bool) -> bool {
    &&& forall|p: int| 0 <= p < s.len() ==> bit(k2, #[trigger] s[p]) == e(p)
    &&& forall|q: usize| q < 64 && !s.contains(q) ==> #[trigger] bit(k2, q) == bit(k, q)
}

/// `e` with the bit at `pt` inverted where `cond` holds.
pub open spec fn toggled(e: spec_fn(int) -> bool, pt: int, cond: bool) -> spec_fn(int) -> bool {
    |p: int| if p == pt { e(p) != cond } else { e(p) }
}

proof fn lemma_toggle(k: u64, k1: u64, s: Seq<usize>, e: spec_fn(int) -> bool, pt: int, cond: bool)
    requires
        s.no_duplicates(),
        in_range(s),
        0 <= pt < s.len(),
        holds(k, k1, s, e),
    ensures
        holds(k, if cond { flip(k1, s[pt]) } else { k1 }, s, toggled(e, pt, cond)),
{
    let k2 = if cond { flip(k1, s[pt]) } else { k1 };
    assert forall|p: int| 0 <= p < s.len() implies bit(k2, #[trigger] s[p]) == toggled(e, pt, cond)(
        p,
    ) by {
        lemma_flip_bit(k1, s[pt], s[p]);
        if p != pt {
            assert(s[p] != s[pt]);
        }
    }
    assert forall|q: usize| q < 64 && !s.contains(q) implies #[trigger] bit(k2, q) == bit(k, q) by {
        lemma_flip_bit(k1, s[pt], q);
        if q == s[pt] {
            assert(s.contains(q));
        }
    }
}

/// A controlled NOT between positions of `s` on a state that `e` describes.
proof fn lemma_cx_holds(
    k: u64,
    k1: u64,
    s: Seq<usize>,
    e: spec_fn(int) -> bool,
    p1: int,
    pt: int,
)
    requires
        s.no_duplicates(),
        in_range(s),
        0 <= p1 < s.len(),
        0 <= pt < s.len(),
        p1 != pt,
        holds(k, k1, s, e),
    ensures
        image(Op::CX(s[p1], s[pt]), k1) matches Ok(k2) && holds(k, k2, s, toggled(e, pt, e(p1))),
{
    lemma_image_cx(s[p1], s[pt], k1);
    lemma_toggle(k, k1, s, e, pt, e(p1));
}

/// A doubly controlled NOT between positions of `s`.
proof fn lemma_ccx_holds(
    k: u64,
    k1: u64,
    s: Seq<usize>,
    e: spec_fn(int) -> bool,
    p1: int,
    p2: int,
    pt: int,
)
    requires
        s.no_duplicates(),
        in_range(s),
        0 <= p1 < s.len(),
        0 <= p2 < s.len(),
        0 <= pt < s.len(),
        p1 != pt,
        p2 != pt,
        holds(k, k1, s, e),
    ensures
        image(Op::CCX(s[p1], s[p2], s[pt]), k1) matches Ok(k2) && holds(
            k,
            k2,
            s,
            toggled(e, pt, e(p1) && e(p2)),
        ),
{
    lemma_image_ccx(s[p1], s[p2], s[pt], k1);
    lemma_toggle(k, k1, s, e, pt, e(p1) && e(p2));
}

proof fn lemma_holds_same(k: u64, k2: u64, s: Seq<usize>, e1: spec_fn(int) -> bool, e2: spec_fn(int) -> bool)
    requires
        holds(k, k2, s, e1),
        forall|p: int| 0 <= p < s.len() ==> #[trigger] e1(p) == e2(p),
    ensures
        holds(k, k2, s, e2),
{
}

proof fn lemma_image_list_push(gs: Seq<Op>, g: Op, k: u64)
    ensures
        image_list(gs.push(g), k) == match image_list(gs, k) {
            Ok(x) => image(g, x),
            Err(e) => Err(e),
        },
{
    assert(gs.push(g).drop_last() =~= gs);
}

/// The registers `a`, `b` and `c` laid end to end, each of `n` qubits, all
/// distinct and below 64.
pub open spec fn adder_regs(a: Seq<usize>, b: Seq<usize>, c: Seq<usize>) -> bool {
    &&& a.len() == b.len()
    &&& c.len() == a.len()
    &&& a.len() > 0
    &&& (a + b + c).no_duplicates()
    &&& in_range(a + b + c)
}

proof fn lemma_positions(a: Seq<usize>, b: Seq<usize>, c: Seq<usize>)
    requires
        a.len() == b.len(),
        c.len() == a.len(),
    ensures
        forall|i: int| 0 <= i < a.len() ==> (a + b + c)[i] == #[trigger] a[i],
        forall|i: int| 0 <= i < a.len() ==> (a + b + c)[a.len() + i] == #[trigger] b[i],
        forall|i: int| 0 <= i < a.len() ==> (a + b + c)[2 * a.len() + i] == #[trigger] c[i],
{
    let n = a.len() as int;
    assert forall|i: int| 0 <= i < n implies (a + b + c)[n + i] == #[trigger] b[i] by {
        assert((a + b)[n + i] == b[i]);
    }
    assert forall|i: int| 0 <= i < n implies (a + b + c)[2 * n + i] == #[trigger] c[i] by {
        assert((a + b).len() == 2 * n);
    }
}

/// The bits after the forward blocks below bit `j`: `b[i]` holds `a ^ b` and
/// `c[i]` the carry out of bit `i`, for `i < j` (`b[0]` is still `b`).
pub open spec fn forward_state(k: u64, a: Seq<usize>, b: Seq<usize>, j: int) -> spec_fn(int) -> bool {
    let n = a.len() as int;
    |p: int|
        if p < n {
            bit(k, a[p])
        } else if p < 2 * n {
            let i = p - n;
            if 1 <= i < j {
                bit(k, a[i]) != bit(k, b[i])
            } else {
                bit(k, b[i])
            }
        } else {
            let i = p - 2 * n;
            if i < j {
                carry_into(k, a, b, (i + 1) as nat)
            } else {
                false
            }
        }
}

proof fn lemma_forward_block(a: Seq<usize>, b: Seq<usize>, c: Seq<usize>, k: u64, k1: u64, i: int)
    requires
        adder_regs(a, b, c),
        1 <= i < a.len() - 1,
        holds(k, k1, a + b + c, forward_state(k, a, b, i)),
    ensures
        image_list(forward_block(a, b, c, i), k1) matches Ok(k2) && holds(
            k,
            k2,
            a + b + c,
            forward_state(k, a, b, i + 1),
        ),
{
    let s = a + b + c;
    let n = a.len() as int;
    lemma_positions(a, b, c);
    let e0 = forward_state(k, a, b, i);
    let g1 = Op::CCX(a[i], b[i], c[i]);
    let g2 = Op::CX(a[i], b[i]);
    let g3 = Op::CCX(c[i - 1], b[i], c[i]);
    assert(forward_block(a, b, c, i) == seq![g1, g2, g3]);
    lemma_ccx_holds(k, k1, s, e0, i, n + i, 2 * n + i);
    let e1 = toggled(e0, 2 * n + i, e0(i) && e0(n + i));
    let x1 = image(g1, k1)->Ok_0;
    lemma_cx_holds(k, x1, s, e1, i, n + i);
    let e2 = toggled(e1, n + i, e1(i));
    let x2 = image(g2, x1)->Ok_0;
    lemma_ccx_holds(k, x2, s, e2, 2 * n + i - 1, n + i, 2 * n + i);
    let e3 = toggled(e2, 2 * n + i, e2(2 * n + i - 1) && e2(n + i));
    let x3 = image(g3, x2)->Ok_0;
    lemma_image_list_push(Seq::<Op>::empty(), g1, k1);
    lemma_image_list_push(seq![g1], g2, k1);
    lemma_image_list_push(seq![g1, g2], g3, k1);
    assert(image_list(Seq::<Op>::empty(), k1) == Ok::<u64, QitError>(k1));
    assert(seq![g1] =~= Seq::<Op>::empty().push(g1));
    assert(seq![g1, g2] =~= seq![g1].push(g2));
    assert(seq![g1, g2, g3] =~= seq![g1, g2].push(g3));
    assert(image_list(seq![g1], k1) == Ok::<u64, QitError>(x1));
    assert(image_list(seq![g1, g2], k1) == Ok::<u64, QitError>(x2));
    assert(image_list(seq![g1, g2, g3], k1) == Ok::<u64, QitError>(x3));
    let ef = forward_state(k, a, b, i + 1);
    assert forall|p: int| 0 <= p < s.len() implies #[trigger] e3(p) == ef(p) by {
        if p == 2 * n + i {
            assert(carry_into(k, a, b, (i + 1) as nat) == ((bit(k, a[i]) && bit(k, b[i])) || (
            carry_into(k, a, b, i as nat) && (bit(k, a[i]) != bit(k, b[i])))));
        }
    }
    lemma_holds_same(k, x3, s, e3, ef);
}

proof fn lemma_image_two(g1: Op, g2: Op, k: u64)
    ensures
        image_list(seq![g1, g2], k) == match image(g1, k) {
            Ok(x) => image(g2, x),
            Err(e) => Err(e),
        },
{
    lemma_image_list_push(Seq::<Op>::empty(), g1, k);
    lemma_image_list_push(seq![g1], g2, k);
    assert(seq![g1] =~= Seq::<Op>::empty().push(g1));
    assert(seq![g1, g2] =~= seq![g1].push(g2));
    assert(image_list(Seq::<Op>::empty(), k) == Ok::<u64, QitError>(k));
}

/// The ripple-carry adder's forward pass up to bit `j`, from the first gate.
proof fn lemma_forward(a: Seq<usize>, b: Seq<usize>, c: Seq<usize>, k: u64, j: int)
    requires
        adder_regs(a, b, c),
        forall|i: int| 0 <= i < c.len() ==> !bit(k, #[trigger] c[i]),
        1 <= j <= a.len() - 1 || j == 1,
    ensures
        image_list(seq![Op::CCX(a[0], b[0], c[0])] + forward_ops(a, b, c, j), k) matches Ok(k2)
            && holds(k, k2, a + b + c, forward_state(k, a, b, j)),
    decreases j,
{
    let s = a + b + c;
    let n = a.len() as int;
    lemma_positions(a, b, c);
    let first = seq![Op::CCX(a[0], b[0], c[0])];
    if j == 1 {
        assert(forward_ops(a, b, c, 1) == Seq::<Op>::empty());
        assert(first + forward_ops(a, b, c, 1) =~= first);
        let e0 = forward_state(k, a, b, 0);
        assert forall|p: int| 0 <= p < s.len() implies bit(k, #[trigger] s[p]) == e0(p) by {
            if p >= 2 * n {
                assert(s[p] == c[p - 2 * n]);
            } else if p >= n {
                assert(s[p] == b[p - n]);
            }
        }
        lemma_ccx_holds(k, k, s, e0, 0, n, 2 * n);
        let e1 = toggled(e0, 2 * n, e0(0) && e0(n));
        let x1 = image(Op::CCX(a[0], b[0], c[0]), k)->Ok_0;
        lemma_image_list_push(Seq::<Op>::empty(), Op::CCX(a[0], b[0], c[0]), k);
        assert(first =~= Seq::<Op>::empty().push(Op::CCX(a[0], b[0], c[0])));
        assert(image_list(Seq::<Op>::empty(), k) == Ok::<u64, QitError>(k));
        let ef = forward_state(k, a, b, 1);
        assert(carry_into(k, a, b, 0) == false);
        assert(carry_into(k, a, b, 1) == (bit(k, a[0]) && bit(k, b[0])));
        assert forall|p: int| 0 <= p < s.len() implies #[trigger] e1(p) == ef(p) by {
            if p == 2 * n {
                assert(e0(0) == bit(k, a[0]));
                assert(e0(n) == bit(k, b[0]));
            }
        }
        lemma_holds_same(k, x1, s, e1, ef);
    } else {
        lemma_forward(a, b, c, k, j - 1);
        let prev = first + forward_ops(a, b, c, j - 1);
        let k1 = image_list(prev, k)->Ok_0;
        lemma_forward_block(a, b, c, k, k1, j - 1);
        lemma_image_list_append(prev, forward_block(a, b, c, j - 1), k);
        assert(forward_ops(a, b, c, j) == forward_ops(a, b, c, j - 1) + forward_block(
            a,
            b,
            c,
            j - 1,
        ));
        assert(prev + forward_block(a, b, c, j - 1) =~= first + forward_ops(a, b, c, j));
    }
}

/// The bits after the top bit's sum and the backward blocks down to bit
/// `lo`: bits `lo ..` hold their sums with their carries cleared, the bits
/// below still hold `a ^ b` and their carries (`b[0]` is still `b`).
pub open spec fn backward_state(k: u64, a: Seq<usize>, b: Seq<usize>, lo: int) -> spec_fn(
    int,
) -> bool {
    let n = a.len() as int;
    |p: int|
        if p < n {
            bit(k, a[p])
        } else if p < 2 * n {
            let i = p - n;
            if i >= lo && i >= 1 {
                sum_bit(k, a, b, i)
            } else if i >= 1 {
                bit(k, a[i]) != bit(k, b[i])
            } else {
                bit(k, b[i])
            }
        } else {
            let i = p - 2 * n;
            if i < lo {
                carry_into(k, a, b, (i + 1) as nat)
            } else {
                false
            }
        }
}

proof fn lemma_top_block(a: Seq<usize>, b: Seq<usize>, c: Seq<usize>, k: u64, k1: u64)
    requires
        adder_regs(a, b, c),
        a.len() >= 2,
        holds(k, k1, a + b + c, forward_state(k, a, b, a.len() - 1)),
    ensures
        image_list(forward_block(a, b, c, a.len() - 1), k1) matches Ok(k2) && holds(
            k,
            k2,
            a + b + c,
            backward_state(k, a, b, a.len() - 1),
        ),
{
    let s = a + b + c;
    let n = a.len() as int;
    let i = n - 1;
    lemma_positions(a, b, c);
    let e0 = forward_state(k, a, b, i);
    let g1 = Op::CX(a[i], b[i]);
    let g2 = Op::CX(c[i - 1], b[i]);
    assert(forward_block(a, b, c, i) == seq![g1, g2]);
    lemma_cx_holds(k, k1, s, e0, i, n + i);
    let e1 = toggled(e0, n + i, e0(i));
    let x1 = image(g1, k1)->Ok_0;
    lemma_cx_holds(k, x1, s, e1, 2 * n + i - 1, n + i);
    let e2 = toggled(e1, n + i, e1(2 * n + i - 1));
    let x2 = image(g2, x1)->Ok_0;
    lemma_image_two(g1, g2, k1);
    let ef = backward_state(k, a, b, i);
    assert forall|p: int| 0 <= p < s.len() implies #[trigger] e2(p) == ef(p) by {}
    lemma_holds_same(k, x2, s, e2, ef);
}

proof fn lemma_backward_block(a: Seq<usize>, b: Seq<usize>, c: Seq<usize>, k: u64, k1: u64, i: int)
    requires
        adder_regs(a, b, c),
        1 <= i < a.len() - 1,
        holds(k, k1, a + b + c, backward_state(k, a, b, i + 1)),
    ensures
        image_list(backward_block(a, b, c, i), k1) matches Ok(k2) && holds(
            k,
            k2,
            a + b + c,
            backward_state(k, a, b, i),
        ),
{
    let s = a + b + c;
    let n = a.len() as int;
    lemma_positions(a, b, c);
    let e0 = backward_state(k, a, b, i + 1);
    let g1 = Op::CCX(c[i - 1], b[i], c[i]);
    let g2 = Op::CX(a[i], b[i]);
    let g3 = Op::CCX(a[i], b[i], c[i]);
    let g4 = Op::CX(a[i], b[i]);
    let g5 = Op::CX(c[i - 1], b[i]);
    assert(backward_block(a, b, c, i) =~= seq![g1, g2, g3, g4, g5]);
    lemma_ccx_holds(k, k1, s, e0, 2 * n + i - 1, n + i, 2 * n + i);
    let e1 = toggled(e0, 2 * n + i, e0(2 * n + i - 1) && e0(n + i));
    let x1 = image(g1, k1)->Ok_0;
    lemma_cx_holds(k, x1, s, e1, i, n + i);
    let e2 = toggled(e1, n + i, e1(i));
    let x2 = image(g2, x1)->Ok_0;
    lemma_ccx_holds(k, x2, s, e2, i, n + i, 2 * n + i);
    let e3 = toggled(e2, 2 * n + i, e2(i) && e2(n + i));
    let x3 = image(g3, x2)->Ok_0;
    lemma_cx_holds(k, x3, s, e3, i, n + i);
    let e4 = toggled(e3, n + i, e3(i));
    let x4 = image(g4, x3)->Ok_0;
    lemma_cx_holds(k, x4, s, e4, 2 * n + i - 1, n + i);
    let e5 = toggled(e4, n + i, e4(2 * n + i - 1));
    let x5 = image(g5, x4)->Ok_0;
    lemma_image_list_push(Seq::<Op>::empty(), g1, k1);
    lemma_image_list_push(seq![g1], g2, k1);
    lemma_image_list_push(seq![g1, g2], g3, k1);
    lemma_image_list_push(seq![g1, g2, g3], g4, k1);
    lemma_image_list_push(seq![g1, g2, g3, g4], g5, k1);
    assert(image_list(Seq::<Op>::empty(), k1) == Ok::<u64, QitError>(k1));
    assert(seq![g1] =~= Seq::<Op>::empty().push(g1));
    assert(seq![g1, g2] =~= seq![g1].push(g2));
    assert(seq![g1, g2, g3] =~= seq![g1, g2].push(g3));
    assert(seq![g1, g2, g3, g4] =~= seq![g1, g2, g3].push(g4));
    assert(seq![g1, g2, g3, g4, g5] =~= seq![g1, g2, g3, g4].push(g5));
    assert(image_list(seq![g1], k1) == Ok::<u64, QitError>(x1));
    assert(image_list(seq![g1, g2], k1) == Ok::<u64, QitError>(x2));
    assert(image_list(seq![g1, g2, g3], k1) == Ok::<u64, QitError>(x3));
    assert(image_list(seq![g1, g2, g3, g4], k1) == Ok::<u64, QitError>(x4));
    assert(image_list(seq![g1, g2, g3, g4, g5], k1) == Ok::<u64, QitError>(x5));
    let ef = backward_state(k, a, b, i);
    assert forall|p: int| 0 <= p < s.len() implies #[trigger] e5(p) == ef(p) by {
        if p == 2 * n + i || p == n + i {
            assert(carry_into(k, a, b, (i + 1) as nat) == ((bit(k, a[i]) && bit(k, b[i])) || (
            carry_into(k, a, b, i as nat) && (bit(k, a[i]) != bit(k, b[i])))));
        }
    }
    lemma_holds_same(k, x5, s, e5, ef);
}

/// The backward pass of the ripple-carry adder, from the state after the
/// forward pass and the top bit's sum.
proof fn lemma_backward(a: Seq<usize>, b: Seq<usize>, c: Seq<usize>, k: u64, k1: u64, j: int)
    requires
        adder_regs(a, b, c),
        2 <= j <= a.len(),
        holds(k, k1, a + b + c, backward_state(k, a, b, a.len() - 1)),
    ensures
        image_list(backward_ops(a, b, c, j), k1) matches Ok(k2) && holds(
            k,
            k2,
            a + b + c,
            backward_state(k, a, b, a.len() - j + 1),
        ),
    decreases j,
{
    if j == 2 {
        assert(backward_ops(a, b, c, 2) == Seq::<Op>::empty());
        assert(image_list(Seq::<Op>::empty(), k1) == Ok::<u64, QitError>(k1));
    } else {
        lemma_backward(a, b, c, k, k1, j - 1);
        let prev = backward_ops(a, b, c, j - 1);
        let x = image_list(prev, k1)->Ok_0;
        let i = a.len() - (j - 1);
        lemma_backward_block(a, b, c, k, x, i);
        lemma_image_list_append(prev, backward_block(a, b, c, i), k1);
    }
}

/// The bits once the adder is done: `b` holds the sum, `a` is unchanged and
/// the carries are cleared.
pub open spec fn done_state(k: u64, a: Seq<usize>, b: Seq<usize>) -> spec_fn(int) -> bool {
    let n = a.len() as int;
    |p: int|
        if p < n {
            bit(k, a[p])
        } else if p < 2 * n {
            sum_bit(k, a, b, p - n)
        } else {
            false
        }
}

proof fn lemma_last_two(a: Seq<usize>, b: Seq<usize>, c: Seq<usize>, k: u64, k1: u64)
    requires
        adder_regs(a, b, c),
        holds(k, k1, a + b + c, backward_state(k, a, b, 1)),
    ensures
        image_list(seq![Op::CCX(a[0], b[0], c[0]), Op::CX(a[0], b[0])], k1) matches Ok(k2)
            && holds(k, k2, a + b + c, done_state(k, a, b)),
{
    let s = a + b + c;
    let n = a.len() as int;
    lemma_positions(a, b, c);
    let e0 = backward_state(k, a, b, 1);
    let g1 = Op::CCX(a[0], b[0], c[0]);
    let g2 = Op::CX(a[0], b[0]);
    lemma_ccx_holds(k, k1, s, e0, 0, n, 2 * n);
    let e1 = toggled(e0, 2 * n, e0(0) && e0(n));
    let x1 = image(g1, k1)->Ok_0;
    lemma_cx_holds(k, x1, s, e1, 0, n);
    let e2 = toggled(e1, n, e1(0));
    let x2 = image(g2, x1)->Ok_0;
    lemma_image_two(g1, g2, k1);
    let ef = done_state(k, a, b);
    assert(carry_into(k, a, b, 0) == false);
    assert(carry_into(k, a, b, 1) == (bit(k, a[0]) && bit(k, b[0])));
    assert forall|p: int| 0 <= p < s.len() implies #[trigger] e2(p) == ef(p) by {}
    lemma_holds_same(k, x2, s, e2, ef);
}

/// The running sum: the sum bits below `i` and the carry into bit `i` make
/// up the sum of the low `i` bits of `a` and `b`.
proof fn lemma_sum_prefix(k: u64, k2: u64, a: Seq<usize>, b: Seq<usize>, i: int)
    requires
        a.len() == b.len(),
        0 <= i <= a.len(),
        forall|j: int| 0 <= j < a.len() ==> bit(k2, #[trigger] b[j]) == sum_bit(k, a, b, j),
    ensures
        reg_value(k2, b.subrange(0, i)) + (if carry_into(k, a, b, i as nat) {
            pow2(i as nat)
        } else {
            0
        }) == reg_value(k, a.subrange(0, i)) + reg_value(k, b.subrange(0, i)),
    decreases i,
{
    if i == 0 {
        assert(a.subrange(0, 0) =~= Seq::<usize>::empty());
        assert(b.subrange(0, 0) =~= Seq::<usize>::empty());
    } else {
        let j = i - 1;
        lemma_sum_prefix(k, k2, a, b, j);
        lemma_reg_prefix(k2, b, j);
        lemma_reg_prefix(k, a, j);
        lemma_reg_prefix(k, b, j);
        lemma_pow2_unfold(i as nat);
        assert(carry_into(k, a, b, i as nat) == ((bit(k, a[j]) && bit(k, b[j])) || (carry_into(
            k,
            a,
            b,
            j as nat,
        ) && (bit(k, a[j]) != bit(k, b[j])))));
    }
}

/// The ripple-carry adder over registers `a`, `b` and `c` of one width `n`,
/// all distinct, with the carries `c` at 0, adds `a` into `b` modulo `2^n`
/// and leaves every qubit outside `b` as it was.
pub proof fn lemma_ripple_adder_adds(a: Seq<usize>, b: Seq<usize>, c: Seq<usize>, k: u64)
    requires
        adder_regs(a, b, c),
        forall|i: int| 0 <= i < c.len() ==> !bit(k, #[trigger] c[i]),
    ensures
        image_list(adder_ops(a, b, c), k) matches Ok(k2) && reg_value(k2, b) == (reg_value(k, a)
            + reg_value(k, b)) % pow2(a.len() as nat) && forall|q: usize|
            q < 64 && !b.contains(q) ==> #[trigger] bit(k2, q) == bit(k, q),
{
    let s = a + b + c;
    let n = a.len() as int;
    lemma_positions(a, b, c);
    let first = seq![Op::CCX(a[0], b[0], c[0])];
    let last = seq![Op::CCX(a[0], b[0], c[0]), Op::CX(a[0], b[0])];
    let fwd = first + forward_ops(a, b, c, n);
    let mid_ops = fwd + backward_ops(a, b, c, n);
    assert(adder_ops(a, b, c) == mid_ops + last);
    if n >= 2 {
        lemma_forward(a, b, c, k, n - 1);
        let pre = first + forward_ops(a, b, c, n - 1);
        let k1 = image_list(pre, k)->Ok_0;
        lemma_top_block(a, b, c, k, k1);
        lemma_image_list_append(pre, forward_block(a, b, c, n - 1), k);
        assert(pre + forward_block(a, b, c, n - 1) =~= fwd);
        let k2 = image_list(fwd, k)->Ok_0;
        lemma_backward(a, b, c, k, k2, n);
        lemma_image_list_append(fwd, backward_ops(a, b, c, n), k);
    } else {
        lemma_forward(a, b, c, k, 1);
        assert(backward_ops(a, b, c, n) == Seq::<Op>::empty());
        assert(mid_ops =~= fwd);
        let k2 = image_list(fwd, k)->Ok_0;
        let e1 = forward_state(k, a, b, 1);
        let eb = backward_state(k, a, b, 1);
        assert forall|p: int| 0 <= p < s.len() implies #[trigger] e1(p) == eb(p) by {}
        lemma_holds_same(k, k2, s, e1, eb);
    }
    let k3 = image_list(mid_ops, k)->Ok_0;
    lemma_last_two(a, b, c, k, k3);
    lemma_image_list_append(mid_ops, last, k);
    let k4 = image_list(adder_ops(a, b, c), k)->Ok_0;
    let ed = done_state(k, a, b);
    assert forall|j: int| 0 <= j < n implies bit(k4, #[trigger] b[j]) == sum_bit(k, a, b, j) by {
        assert(s[n + j] == b[j]);
        assert(ed(n + j) == sum_bit(k, a, b, j));
    }
    lemma_sum_prefix(k, k4, a, b, n);
    assert(a.subrange(0, n) =~= a);
    assert(b.subrange(0, n) =~= b);
    lemma_reg_bound(k4, b);
    let total = (reg_value(k, a) + reg_value(k, b)) as int;
    let top = pow2(n as nat) as int;
    if carry_into(k, a, b, n as nat) {
        lemma_fundamental_div_mod_converse_mod(total, top, 1, reg_value(k4, b) as int);
    } else {
        lemma_small_mod(total as nat, top as nat);
    }
    assert forall|q: usize| q < 64 && !b.contains(q) implies #[trigger] bit(k4, q) == bit(k, q) by {
        if s.contains(q) {
            let w = choose|w: int| 0 <= w < s.len() && #[trigger] s[w] == q;
            if w < n {
                assert(s[w] == a[w]);
                assert(ed(w) == bit(k, a[w]));
            } else if w < 2 * n {
                assert(s[w] == b[w - n]);
                assert(b.contains(q));
            } else {
                assert(s[w] == c[w - 2 * n]);
                assert(ed(w) == false);
            }
        }
    }
}

/// Whether every gate of `gs` is a NOT controlled by one or two qubits, its
/// qubits distinct and below `n`.
pub open spec fn valid_flips(gs: Seq<Op>, n: usize) -> bool {
    forall|i: int|
        0 <= i < gs.len() ==> match #[trigger] gs[i] {
            Op::CX(x, y) => x != y && x < n && y < n,
            Op::CCX(x, y, z) => x != y && x != z && y != z && x < n && y < n && z < n,
            _ => false,
        }
}

proof fn lemma_claim_two(x: usize, y: usize, n: usize)
    requires
        x != y,
        x < n,
        y < n,
        n <= 64,
    ensures
        claim(0, seq![x, y], n) is Ok,
        claim(0, seq![x], n) == Ok::<u64, QitError>(1u64 << (x as u64)),
{
    let (xx, yy) = (x as u64, y as u64);
    assert(seq![x, y].drop_last() =~= seq![x]);
    assert(seq![x].drop_last() =~= Seq::<usize>::empty());
    assert(claim(0, Seq::<usize>::empty(), n) == Ok::<u64, QitError>(0));
    assert(0u64 & (1u64 << xx) == 0 && 0u64 | (1u64 << xx) == (1u64 << xx)) by (bit_vector)
        requires
            xx < 64,
    ;
    assert((1u64 << xx) & (1u64 << yy) == 0) by (bit_vector)
        requires
            xx < 64,
            yy < 64,
            xx != yy,
    ;
}

proof fn lemma_claim_three(x: usize, y: usize, z: usize, n: usize)
    requires
        x != y,
        x != z,
        y != z,
        x < n,
        y < n,
        z < n,
        n <= 64,
    ensures
        claim(0, seq![x, y, z], n) is Ok,
{
    let (xx, yy, zz) = (x as u64, y as u64, z as u64);
    lemma_claim_two(x, y, n);
    assert(seq![x, y, z].drop_last() =~= seq![x, y]);
    assert(seq![x, y].drop_last() =~= seq![x]);
    let m = (1u64 << xx) | (1u64 << yy);
    assert(claim(0, seq![x, y], n) == Ok::<u64, QitError>(m));
    assert(m & (1u64 << zz) == 0) by (bit_vector)
        requires
            m == (1u64 << xx) | (1u64 << yy),
            xx < 64,
            yy < 64,
            zz < 64,
            xx != zz,
            yy != zz,
    ;
}

/// A list of controlled NOTs with distinct qubits in range claims validly
/// and sends every basis string somewhere.
proof fn lemma_valid_flips(gs: Seq<Op>, n: usize, k: u64)
    requires
        valid_flips(gs, n),
        n <= 64,
    ensures
        schedule_list(gs, 0, n) is Ok,
        image_list(gs, k) is Ok,
    decreases gs.len(),
{
    if gs.len() > 0 {
        let init = gs.drop_last();
        assert forall|i: int| 0 <= i < init.len() implies match #[trigger] init[i] {
            Op::CX(x, y) => x != y && x < n && y < n,
            Op::CCX(x, y, z) => x != y && x != z && y != z && x < n && y < n && z < n,
            _ => false,
        } by {
            assert(init[i] == gs[i]);
        }
        lemma_valid_flips(init, n, k);
        let g = gs.last();
        assert(g == gs[gs.len() - 1]);
        assert(gs.drop_last() == init);
        let k1 = image_list(init, k)->Ok_0;
        match g {
            Op::CX(x, y) => {
                lemma_claim_two(x, y, n);
                lemma_image_cx(x, y, k1);
                assert(leaf_claims(g) == seq![x, y]);
                assert(schedule(g, 0, n) is Ok);
            },
            Op::CCX(x, y, z) => {
                lemma_claim_three(x, y, z, n);
                lemma_image_ccx(x, y, z, k1);
                assert(leaf_claims(g) == seq![x, y, z]);
                assert(schedule(g, 0, n) is Ok);
            },
            _ => {},
        }
    }
}

proof fn lemma_valid_flips_append(s1: Seq<Op>, s2: Seq<Op>, n: usize)
    requires
        valid_flips(s1, n),
        valid_flips(s2, n),
    ensures
        valid_flips(s1 + s2, n),
{
    assert forall|i: int| 0 <= i < (s1 + s2).len() implies match #[trigger] (s1 + s2)[i] {
        Op::CX(x, y) => x != y && x < n && y < n,
        Op::CCX(x, y, z) => x != y && x != z && y != z && x < n && y < n && z < n,
        _ => false,
    } by {
        if i < s1.len() {
            assert((s1 + s2)[i] == s1[i]);
        } else {
            assert((s1 + s2)[i] == s2[i - s1.len()]);
        }
    }
}

proof fn lemma_regs_distinct(a: Seq<usize>, b: Seq<usize>, c: Seq<usize>)
    requires
        adder_regs(a, b, c),
    ensures
        forall|i: int, j: int| 0 <= i < a.len() && 0 <= j < a.len() ==> #[trigger] a[i] != #[trigger] b[j],
        forall|i: int, j: int| 0 <= i < a.len() && 0 <= j < a.len() ==> #[trigger] a[i] != #[trigger] c[j],
        forall|i: int, j: int| 0 <= i < a.len() && 0 <= j < a.len() ==> #[trigger] b[i] != #[trigger] c[j],
        forall|i: int, j: int| 0 <= i < a.len() && 0 <= j < a.len() && i != j ==> #[trigger] c[i] != #[trigger] c[j],
        forall|i: int| 0 <= i < a.len() ==> #[trigger] a[i] < 64 && b[i] < 64 && c[i] < 64,
{
    let s = a + b + c;
    let n = a.len() as int;
    lemma_positions(a, b, c);
    assert forall|i: int, j: int| 0 <= i < n && 0 <= j < n implies #[trigger] a[i] != #[trigger] b[j] by {
        assert(s[i] == a[i] && s[n + j] == b[j]);
    }
    assert forall|i: int, j: int| 0 <= i < n && 0 <= j < n implies #[trigger] a[i] != #[trigger] c[j] by {
        assert(s[i] == a[i] && s[2 * n + j] == c[j]);
    }
    assert forall|i: int, j: int| 0 <= i < n && 0 <= j < n implies #[trigger] b[i] != #[trigger] c[j] by {
        assert(s[n + i] == b[i] && s[2 * n + j] == c[j]);
    }
    assert forall|i: int, j: int| 0 <= i < n && 0 <= j < n && i != j implies #[trigger] c[i] != #[trigger] c[j] by {
        assert(s[2 * n + i] == c[i] && s[2 * n + j] == c[j]);
    }
    assert forall|i: int| 0 <= i < n implies #[trigger] a[i] < 64 && b[i] < 64 && c[i] < 64 by {
        assert(s[i] == a[i] && s[n + i] == b[i] && s[2 * n + i] == c[i]);
    }
}

proof fn lemma_adder_flips(a: Seq<usize>, b: Seq<usize>, c: Seq<usize>)
    requires
        adder_regs(a, b, c),
    ensures
        valid_flips(adder_ops(a, b, c), 64),
{
    let n = a.len() as int;
    lemma_regs_distinct(a, b, c);
    let first = seq![Op::CCX(a[0], b[0], c[0])];
    let last = seq![Op::CCX(a[0], b[0], c[0]), Op::CX(a[0], b[0])];
    assert(valid_flips(first, 64));
    assert(valid_flips(last, 64));
    lemma_forward_flips(a, b, c, n);
    lemma_backward_flips(a, b, c, n);
    lemma_valid_flips_append(first, forward_ops(a, b, c, n), 64);
    lemma_valid_flips_append(first + forward_ops(a, b, c, n), backward_ops(a, b, c, n), 64);
    lemma_valid_flips_append(
        first + forward_ops(a, b, c, n) + backward_ops(a, b, c, n),
        last,
        64,
    );
}

proof fn lemma_forward_flips(a: Seq<usize>, b: Seq<usize>, c: Seq<usize>, j: int)
    requires
        adder_regs(a, b, c),
        j <= a.len(),
    ensures
        valid_flips(forward_ops(a, b, c, j), 64),
    decreases j,
{
    if j > 1 {
        lemma_forward_flips(a, b, c, j - 1);
        lemma_regs_distinct(a, b, c);
        let i = j - 1;
        assert(valid_flips(forward_block(a, b, c, i), 64));
        lemma_valid_flips_append(forward_ops(a, b, c, j - 1), forward_block(a, b, c, i), 64);
    }
}

proof fn lemma_backward_flips(a: Seq<usize>, b: Seq<usize>, c: Seq<usize>, j: int)
    requires
        adder_regs(a, b, c),
        j <= a.len(),
    ensures
        valid_flips(backward_ops(a, b, c, j), 64),
    decreases j,
{
    if j > 2 {
        lemma_backward_flips(a, b, c, j - 1);
        lemma_regs_distinct(a, b, c);
        let i = a.len() - (j - 1);
        assert(1 <= i < a.len());
        assert(c[i - 1] != c[i]);
        assert(b[i] != c[i - 1]);
        assert(b[i] != c[i]);
        assert(a[i] != b[i]);
        assert(a[i] != c[i]);
        assert(a[i - 1] < 64 && c[i - 1] < 64);
        assert(a[i] < 64 && b[i] < 64 && c[i] < 64);
        let blk = backward_block(a, b, c, i);
        assert forall|p: int| 0 <= p < blk.len() implies match #[trigger] blk[p] {
            Op::CX(x, y) => x != y && x < 64 && y < 64,
            Op::CCX(x, y, z) => x != y && x != z && y != z && x < 64 && y < 64 && z < 64,
            _ => false,
        } by {
            if p == 0 {
            } else if p == 1 {
            } else if p == 2 {
            } else if p == 3 {
            } else {
            }
        }
        lemma_valid_flips_append(backward_ops(a, b, c, j - 1), backward_block(a, b, c, i), 64);
    }
}

/// The subtractor that `substract_nbits` builds undoes the adder that
/// `full_adder_nbits` builds on the same registers, on every basis string.
pub proof fn lemma_subtractor_undoes_adder(a: Seq<usize>, b: Seq<usize>, c: Seq<usize>, k: u64)
    requires
        adder_regs(a, b, c),
    ensures
        image(Op::U(adder_ops(a, b, c)), k) matches Ok(k2) && image(
            Op::U(reversed_list(adder_ops(a, b, c))),
            k2,
        ) == Ok::<u64, QitError>(k),
{
    lemma_adder_flips(a, b, c);
    lemma_valid_flips(adder_ops(a, b, c), 64, k);
    lemma_reversed_list_undoes(adder_ops(a, b, c), 0, 64, k);
}

/// Whether every carry qubit of `c` is 0 in `k`.
pub open spec fn carries_clear(k: u64, c: Seq<usize>) -> bool {
    forall|i: int| 0 <= i < c.len() ==> !bit(k, #[trigger] c[i])
}

/// On every basis string whose carries are 0, `gs` adds the register `a`
/// into `b` modulo `2^n` and leaves every qubit outside `b` as it was.
pub open spec fn adds_registers(gs: Seq<Op>, a: Seq<usize>, b: Seq<usize>, c: Seq<usize>) -> bool {
    forall|k: u64|
        carries_clear(k, c) ==> (#[trigger] image_list(gs, k) matches Ok(k2) && reg_value(k2, b)
            == (reg_value(k, a) + reg_value(k, b)) % pow2(a.len() as nat) && forall|q: usize|
            q < 64 && !b.contains(q) ==> #[trigger] bit(k2, q) == bit(k, q))
}

/// On every basis string, `gs` undoes the adder on `a`, `b` and `c`.
pub open spec fn undoes_adder(gs: Seq<Op>, a: Seq<usize>, b: Seq<usize>, c: Seq<usize>) -> bool {
    forall|k: u64|
        #[trigger] image_list(adder_ops(a, b, c), k) matches Ok(k2) && image_list(gs, k2) == Ok::<
            u64,
            QitError,
        >(k)
}

/// The ripple-carry adder meets `adds_registers`, and its reverse meets
/// `undoes_adder`.
pub proof fn lemma_adder_meets(a: Seq<usize>, b: Seq<usize>, c: Seq<usize>)
    requires
        adder_regs(a, b, c),
    ensures
        adds_registers(adder_ops(a, b, c), a, b, c),
        undoes_adder(reversed_list(adder_ops(a, b, c)), a, b, c),
{
    assert forall|k: u64| carries_clear(k, c) implies (#[trigger] image_list(adder_ops(a, b, c), k) matches Ok(k2)
        && reg_value(k2, b) == (reg_value(k, a) + reg_value(k, b)) % pow2(a.len() as nat)
        && forall|q: usize| q < 64 && !b.contains(q) ==> #[trigger] bit(k2, q) == bit(k, q)) by {
        lemma_ripple_adder_adds(a, b, c, k);
    }
    assert forall|k: u64| #[trigger] image_list(adder_ops(a, b, c), k) matches Ok(k2) && image_list(
        reversed_list(adder_ops(a, b, c)),
        k2,
    ) == Ok::<u64, QitError>(k) by {
        lemma_subtractor_undoes_adder(a, b, c, k);
    }
}

} // verus!
