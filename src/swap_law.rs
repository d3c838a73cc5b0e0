//! What the register swap does: it exchanges the two registers qubit by
//! qubit.
use crate::circuits::swap_ops;
use crate::const_adder_law::in_range;
use crate::error::QitError;
use crate::gates::{bit, flip, image, image_list, lemma_flip_bit, lemma_image_cx, Op};
use crate::reversal::lemma_image_list_append;
use vstd::prelude::*;

verus! {

/// On every basis string, `gs` exchanges qubit `a[i]` with qubit `b[i]` for
/// each `i`, and leaves every other qubit as it was.
pub open spec fn exchanges(gs: Seq<Op>, a: Seq<usize>, b: Seq<usize>) -> bool {
    forall|k: u64|
        #[trigger] image_list(gs, k) matches Ok(k2) && (forall|i: int|
            0 <= i < a.len() ==> bit(k2, #[trigger] a[i]) == bit(k, b[i]) && bit(k2, b[i]) == bit(
                k,
                a[i],
            )) && forall|q: usize| q < 64 && !(a + b).contains(q) ==> #[trigger] bit(k2, q) == bit(k, q)
}

proof fn lemma_swap_pair(x: usize, y: usize, k: u64)
    requires
        x < 64,
        y < 64,
        x != y,
    ensures
        image_list(seq![Op::CX(x, y), Op::CX(y, x), Op::CX(x, y)], k) matches Ok(k2) && bit(k2, x)
            == bit(k, y) && bit(k2, y) == bit(k, x) && forall|q: usize|
            q < 64 && q != x && q != y ==> #[trigger] bit(k2, q) == bit(k, q),
{
    let g1 = Op::CX(x, y);
    let g2 = Op::CX(y, x);
    lemma_image_cx(x, y, k);
    let k1 = if bit(k, x) { flip(k, y) } else { k };
    lemma_image_cx(y, x, k1);
    let k2 = if bit(k1, y) { flip(k1, x) } else { k1 };
    lemma_image_cx(x, y, k2);
    let k3 = if bit(k2, x) { flip(k2, y) } else { k2 };
    let s = seq![g1, g2, g1];
    assert(s.drop_last() =~= seq![g1, g2]);
    assert(seq![g1, g2].drop_last() =~= seq![g1]);
    assert(seq![g1].drop_last() =~= Seq::<Op>::empty());
    assert(image_list(Seq::<Op>::empty(), k) == Ok::<u64, QitError>(k));
    assert(image_list(seq![g1], k) == Ok::<u64, QitError>(k1));
    assert(image_list(seq![g1, g2], k) == Ok::<u64, QitError>(k2));
    assert(s.last() == g1);
    assert(image_list(s, k) == Ok::<u64, QitError>(k3));
    lemma_flip_bit(k, y, x);
    lemma_flip_bit(k, y, y);
    lemma_flip_bit(k1, x, x);
    lemma_flip_bit(k1, x, y);
    lemma_flip_bit(k2, y, x);
    lemma_flip_bit(k2, y, y);
    assert forall|q: usize| q < 64 && q != x && q != y implies #[trigger] bit(k3, q) == bit(k, q) by {
        lemma_flip_bit(k, y, q);
        lemma_flip_bit(k1, x, q);
        lemma_flip_bit(k2, y, q);
    }
}

/// The swap of the registers `a` and `b`, of one length and with all their
/// qubits distinct and below 64, exchanges them.
pub proof fn lemma_swap_exchanges(a: Seq<usize>, b: Seq<usize>, k: u64)
    requires
        a.len() == b.len(),
        (a + b).no_duplicates(),
        in_range(a + b),
    ensures
        image_list(swap_ops(a, b), k) matches Ok(k2) && (forall|i: int|
            0 <= i < a.len() ==> bit(k2, #[trigger] a[i]) == bit(k, b[i]) && bit(k2, b[i]) == bit(
                k,
                a[i],
            )) && forall|q: usize| q < 64 && !(a + b).contains(q) ==> #[trigger] bit(k2, q) == bit(k, q),
    decreases a.len(),
{
    let n = a.len() as int;
    if n == 0 {
        assert(swap_ops(a, b) == Seq::<Op>::empty());
    } else {
        let (a0, b0) = (a.drop_last(), b.drop_last());
        let (x, y) = (a.last(), b.last());
        assert((a + b)[n - 1] == x);
        assert((a + b)[2 * n - 1] == y);
        assert(x != y);
        assert(x < 64 && y < 64);
        assert forall|i: int, j: int| 0 <= i < a0.len() + b0.len() && 0 <= j < a0.len() + b0.len()
            && i != j implies (a0 + b0)[i] != (a0 + b0)[j] by {
            let pi = if i < n - 1 { i } else { i + 1 };
            let pj = if j < n - 1 { j } else { j + 1 };
            assert((a0 + b0)[i] == (a + b)[pi]);
            assert((a0 + b0)[j] == (a + b)[pj]);
        }
        assert forall|i: int| 0 <= i < (a0 + b0).len() implies #[trigger] (a0 + b0)[i] < 64 by {
            let pi = if i < n - 1 { i } else { i + 1 };
            assert((a0 + b0)[i] == (a + b)[pi]);
        }
        lemma_swap_exchanges(a0, b0, k);
        let prev = swap_ops(a0, b0);
        let k1 = image_list(prev, k)->Ok_0;
        let tail = seq![Op::CX(x, y), Op::CX(y, x), Op::CX(x, y)];
        lemma_swap_pair(x, y, k1);
        lemma_image_list_append(prev, tail, k);
        let k2 = image_list(swap_ops(a, b), k)->Ok_0;
        assert(!(a0 + b0).contains(x)) by {
            if (a0 + b0).contains(x) {
                let w = choose|w: int| 0 <= w < (a0 + b0).len() && #[trigger] (a0 + b0)[w] == x;
                let pw = if w < n - 1 { w } else { w + 1 };
                assert((a0 + b0)[w] == (a + b)[pw]);
            }
        }
        assert(!(a0 + b0).contains(y)) by {
            if (a0 + b0).contains(y) {
                let w = choose|w: int| 0 <= w < (a0 + b0).len() && #[trigger] (a0 + b0)[w] == y;
                let pw = if w < n - 1 { w } else { w + 1 };
                assert((a0 + b0)[w] == (a + b)[pw]);
            }
        }
        assert forall|i: int| 0 <= i < n implies bit(k2, #[trigger] a[i]) == bit(k, b[i]) && bit(
            k2,
            b[i],
        ) == bit(k, a[i]) by {
            if i < n - 1 {
                assert(a[i] == a0[i] && b[i] == b0[i]);
                assert((a + b)[i] == a[i] && (a + b)[n + i] == b[i]);
                assert(a[i] != x && a[i] != y && b[i] != x && b[i] != y);
            }
        }
        assert forall|q: usize| q < 64 && !(a + b).contains(q) implies #[trigger] bit(k2, q) == bit(
            k,
            q,
        ) by {
            assert((a + b)[n - 1] == x && (a + b)[2 * n - 1] == y);
            if (a0 + b0).contains(q) {
                let w = choose|w: int| 0 <= w < (a0 + b0).len() && #[trigger] (a0 + b0)[w] == q;
                let pw = if w < n - 1 { w } else { w + 1 };
                assert((a0 + b0)[w] == (a + b)[pw]);
            }
        }
    }
}

/// The swap meets `exchanges`.
pub proof fn lemma_swap_meets(a: Seq<usize>, b: Seq<usize>)
    requires
        a.len() == b.len(),
        (a + b).no_duplicates(),
        in_range(a + b),
    ensures
        exchanges(swap_ops(a, b), a, b),
{
    assert forall|k: u64| #[trigger] image_list(swap_ops(a, b), k) matches Ok(k2) && (forall|i: int|
        0 <= i < a.len() ==> bit(k2, #[trigger] a[i]) == bit(k, b[i]) && bit(k2, b[i]) == bit(
            k,
            a[i],
        )) && forall|q: usize| q < 64 && !(a + b).contains(q) ==> #[trigger] bit(k2, q) == bit(k, q) by {
        lemma_swap_exchanges(a, b, k);
    }
}

} // verus!
