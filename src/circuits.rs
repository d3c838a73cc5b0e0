//! Reversible arithmetic circuits built from gates: adders, constant adders
//! and subtractors, modular arithmetic and the quantum Fourier transform.
use crate::error::QitError;
use crate::gates::{
    lemma_views, lemma_views_push, reverse_gates, reversed_list, views, Gate, Op, CCX, CNX, CU, CX,
    H, R as RGate, U, X,
};
use crate::const_adder_law::{
    adds_constant, in_range, lemma_const_adder_meets, lemma_const_subtractor_meets,
    lemma_power_adder_meets, undoes_const_adder,
};
use crate::mod_funcs::{gcd, mod_inv};
use crate::ripple_law::{adds_registers, lemma_adder_meets, undoes_adder};
use crate::swap_law::{exchanges, lemma_swap_meets};
use vstd::arithmetic::div_mod::*;
use vstd::arithmetic::mul::*;
use vstd::arithmetic::power2::*;
use vstd::bits::lemma_u64_shl_is_mul;
use vstd::prelude::*;

verus! {

broadcast use {lemma_views, lemma_views_push};

/// Whether no qubit occurs twice in `qs`.
pub fn check_unique(qs: &[usize]) -> (r: bool)
    ensures
        r == qs@.no_duplicates(),
{
    let mut i: usize = 0;
    while i < qs.len()
        invariant
            i <= qs@.len(),
            forall|p: int, q: int| 0 <= p < q < qs@.len() && p < i ==> qs@[p] != qs@[q],
        decreases qs.len() - i,
    {
        let mut j: usize = i + 1;
        while j < qs.len()
            invariant
                i < qs@.len(),
                i < j <= qs@.len(),
                forall|p: int, q: int| 0 <= p < q < qs@.len() && p < i ==> qs@[p] != qs@[q],
                forall|q: int| i < q < j ==> qs@[i as int] != qs@[q],
            decreases qs.len() - j,
        {
            if qs[i] == qs[j] {
                return false;
            }
            j = j + 1;
        }
        i = i + 1;
    }
    true
}

/// The qubits of `a` followed by those of `b`.
fn concat(a: &[usize], b: &[usize]) -> (r: Vec<usize>)
    ensures
        r@ == a@ + b@,
{
    let mut r: Vec<usize> = Vec::new();
    let mut i: usize = 0;
    while i < a.len()
        invariant
            i <= a@.len(),
            r@ == a@.subrange(0, i as int),
        decreases a.len() - i,
    {
        r.push(a[i]);
        i = i + 1;
        proof {
            assert(r@ =~= a@.subrange(0, i as int));
        }
    }
    let mut j: usize = 0;
    while j < b.len()
        invariant
            i == a@.len(),
            j <= b@.len(),
            r@ == a@ + b@.subrange(0, j as int),
        decreases b.len() - j,
    {
        r.push(b[j]);
        j = j + 1;
        proof {
            assert(r@ =~= a@ + b@.subrange(0, j as int));
        }
    }
    proof {
        assert(a@.subrange(0, i as int) =~= a@);
        assert(b@.subrange(0, j as int) =~= b@);
        assert(r@ =~= a@ + b@);
    }
    r
}

/// Moves the gates of `more` to the end of `gates`.
fn append_gates(gates: &mut Vec<Gate>, more: Vec<Gate>)
    ensures
        views(final(gates)@) == views(old(gates)@) + views(more@),
{
    let ghost added = more@;
    let mut more = more;
    proof {
        lemma_views(old(gates)@);
        lemma_views(more@);
    }
    gates.append(&mut more);
    proof {
        lemma_views(gates@);
        assert(views(gates@) =~= views(old(gates)@) + views(added));
    }
}

/// The three swaps by controlled NOT that exchange `a[i]` and `b[i]`.
pub open spec fn swap_ops(a: Seq<usize>, b: Seq<usize>) -> Seq<Op>
    decreases a.len(),
{
    if a.len() == 0 || b.len() == 0 {
        seq![]
    } else {
        let (x, y) = (a.last(), b.last());
        swap_ops(a.drop_last(), b.drop_last()) + seq![Op::CX(x, y), Op::CX(y, x), Op::CX(x, y)]
    }
}

fn swap_gates(a_in: &[usize], b_in: &[usize]) -> (r: Vec<Gate>)
    requires
        a_in@.len() == b_in@.len(),
    ensures
        views(r@) == swap_ops(a_in@, b_in@),
{
    let mut gates: Vec<Gate> = Vec::new();
    let mut i: usize = 0;
    while i < a_in.len()
        invariant
            a_in@.len() == b_in@.len(),
            i <= a_in@.len(),
            views(gates@) == swap_ops(a_in@.subrange(0, i as int), b_in@.subrange(0, i as int)),
        decreases a_in.len() - i,
    {
        let a = a_in[i];
        let b = b_in[i];
        let ghost before = gates@;
        gates.push(Gate::CX(CX::new(a, b)));
        gates.push(Gate::CX(CX::new(b, a)));
        gates.push(Gate::CX(CX::new(a, b)));
        proof {
            let sa = a_in@.subrange(0, i + 1);
            let sb = b_in@.subrange(0, i + 1);
            assert(sa.drop_last() =~= a_in@.subrange(0, i as int));
            assert(sb.drop_last() =~= b_in@.subrange(0, i as int));
            assert(views(gates@) =~= views(before) + seq![
                Op::CX(a, b),
                Op::CX(b, a),
                Op::CX(a, b),
            ]);
        }
        i = i + 1;
    }
    proof {
        assert(a_in@.subrange(0, i as int) =~= a_in@);
        assert(b_in@.subrange(0, i as int) =~= b_in@);
    }
    gates
}

/// Exchanges the register `a_in` with the register `b_in`, qubit by qubit.
pub fn swap(a_in: &[usize], b_in: &[usize]) -> (r: Result<U, QitError>)
    ensures
        a_in@.len() != b_in@.len() ==> r == Err::<U, QitError>(QitError::LengthMismatch),
        a_in@.len() == b_in@.len() && !(a_in@ + b_in@).no_duplicates() ==> r == Err::<
            U,
            QitError,
        >(QitError::DuplicateQubit),
        a_in@.len() == b_in@.len() && (a_in@ + b_in@).no_duplicates() ==> (r matches Ok(u)
            && views(u.gates@) == swap_ops(a_in@, b_in@)),
        in_range(a_in@ + b_in@) ==> (r matches Ok(u) ==> exchanges(views(u.gates@), a_in@, b_in@)),
{
    proof {
        if a_in@.len() == b_in@.len() && (a_in@ + b_in@).no_duplicates() && in_range(
            a_in@ + b_in@,
        ) {
            lemma_swap_meets(a_in@, b_in@);
        }
    }
    if a_in.len() != b_in.len() {
        return Err(QitError::LengthMismatch);
    }
    let all = concat(a_in, b_in);
    if !check_unique(all.as_slice()) {
        return Err(QitError::DuplicateQubit);
    }
    Ok(U::new(swap_gates(a_in, b_in), "swap".to_owned()))
}

/// Half adder: `s_out ^= a_in ^ b_in` and `c_out ^= a_in & b_in`.
pub fn half_adder_bit(a_in: usize, b_in: usize, s_out: usize, c_out: usize) -> (r: U)
    ensures
        views(r.gates@) == seq![Op::CX(a_in, s_out), Op::CX(b_in, s_out), Op::CCX(a_in, b_in, c_out)],
{
    let gates = vec![
        Gate::CX(CX::new(a_in, s_out)),
        Gate::CX(CX::new(b_in, s_out)),
        Gate::CCX(CCX::new(a_in, b_in, c_out)),
    ];
    proof {
        lemma_views(gates@);
        assert(views(gates@) =~= seq![
            Op::CX(a_in, s_out),
            Op::CX(b_in, s_out),
            Op::CCX(a_in, b_in, c_out),
        ]);
    }
    U::new(gates, "half_addr".to_owned())
}

/// Full adder on one bit: `|a>|b>|c>|0> -> |a>|a ^ b ^ c>|c>|carry>`.
pub fn full_adder_bit(a_in: usize, b_in: usize, c_in: usize, c_out: usize) -> (r: U)
    ensures
        views(r.gates@) == seq![
            Op::CCX(a_in, b_in, c_out),
            Op::CX(a_in, b_in),
            Op::CCX(b_in, c_in, c_out),
            Op::CX(c_in, b_in),
        ],
{
    let gates = vec![
        Gate::CCX(CCX::new(a_in, b_in, c_out)),
        Gate::CX(CX::new(a_in, b_in)),
        Gate::CCX(CCX::new(b_in, c_in, c_out)),
        Gate::CX(CX::new(c_in, b_in)),
    ];
    proof {
        lemma_views(gates@);
        assert(views(gates@) =~= seq![
            Op::CCX(a_in, b_in, c_out),
            Op::CX(a_in, b_in),
            Op::CCX(b_in, c_in, c_out),
            Op::CX(c_in, b_in),
        ]);
    }
    U::new(gates, "full_adder_bit".to_owned())
}

/// The carry-computing block of the forward pass at bit `i` (`i >= 1`); at
/// the top bit it only folds the carry into the sum.
pub open spec fn forward_block(a: Seq<usize>, b: Seq<usize>, c: Seq<usize>, i: int) -> Seq<Op> {
    if i == a.len() - 1 {
        seq![Op::CX(a[i], b[i]), Op::CX(c[i - 1], b[i])]
    } else {
        seq![Op::CCX(a[i], b[i], c[i]), Op::CX(a[i], b[i]), Op::CCX(c[i - 1], b[i], c[i])]
    }
}

/// The forward blocks of bits `1 .. k`.
pub open spec fn forward_ops(a: Seq<usize>, b: Seq<usize>, c: Seq<usize>, k: int) -> Seq<Op>
    decreases k,
{
    if k <= 1 {
        seq![]
    } else {
        forward_ops(a, b, c, k - 1) + forward_block(a, b, c, k - 1)
    }
}

/// The block of the backward pass that clears the carry of bit `i` and
/// leaves the sum bit in `b[i]`.
pub open spec fn backward_block(a: Seq<usize>, b: Seq<usize>, c: Seq<usize>, i: int) -> Seq<Op> {
    seq![
        Op::CCX(c[i - 1], b[i], c[i]),
        Op::CX(a[i], b[i]),
        Op::CCX(a[i], b[i], c[i]),
        Op::CX(a[i], b[i]),
        Op::CX(c[i - 1], b[i]),
    ]
}

/// The backward blocks of bits `n - 2` down to `n - j + 1`.
pub open spec fn backward_ops(a: Seq<usize>, b: Seq<usize>, c: Seq<usize>, j: int) -> Seq<Op>
    decreases j,
{
    if j <= 2 {
        seq![]
    } else {
        backward_ops(a, b, c, j - 1) + backward_block(a, b, c, a.len() - (j - 1))
    }
}

/// The ripple-carry adder `|a>|b>|0> -> |a>|a + b mod 2^n>|0>`.
pub open spec fn adder_ops(a: Seq<usize>, b: Seq<usize>, c: Seq<usize>) -> Seq<Op> {
    let n = a.len() as int;
    seq![Op::CCX(a[0], b[0], c[0])] + forward_ops(a, b, c, n) + backward_ops(a, b, c, n) + seq![
        Op::CCX(a[0], b[0], c[0]),
        Op::CX(a[0], b[0]),
    ]
}

/// Why the registers cannot make an adder, if they cannot.
pub open spec fn adder_check(a: Seq<usize>, b: Seq<usize>, c: Seq<usize>) -> Option<QitError> {
    if a.len() != b.len() || c.len() != a.len() {
        Some(QitError::LengthMismatch)
    } else if a.len() == 0 {
        Some(QitError::EmptyRegister)
    } else if !(a + b + c).no_duplicates() {
        Some(QitError::DuplicateQubit)
    } else {
        None
    }
}

#[verifier::rlimit(40)]
fn adder_gates(a_in: &[usize], b_in: &[usize], c_inout: &[usize]) -> (r: Vec<Gate>)
    requires
        a_in@.len() == b_in@.len(),
        c_inout@.len() == a_in@.len(),
        a_in@.len() > 0,
    ensures
        views(r@) == adder_ops(a_in@, b_in@, c_inout@),
{
    let ghost (a, b, c) = (a_in@, b_in@, c_inout@);
    let n = a_in.len();
    let mut gates: Vec<Gate> = Vec::new();
    gates.push(Gate::CCX(CCX::new(a_in[0], b_in[0], c_inout[0])));
    let mut i: usize = 1;
    while i < n
        invariant
            n == a.len(),
            a == a_in@,
            b == b_in@,
            c == c_inout@,
            a.len() == b.len(),
            c.len() == a.len(),
            1 <= i <= n,
            views(gates@) == seq![Op::CCX(a[0], b[0], c[0])] + forward_ops(a, b, c, i as int),
        decreases n - i,
    {
        let ghost before = gates@;
        if i == n - 1 {
            gates.push(Gate::CX(CX::new(a_in[i], b_in[i])));
            gates.push(Gate::CX(CX::new(c_inout[i - 1], b_in[i])));
        } else {
            gates.push(Gate::CCX(CCX::new(a_in[i], b_in[i], c_inout[i])));
            gates.push(Gate::CX(CX::new(a_in[i], b_in[i])));
            gates.push(Gate::CCX(CCX::new(c_inout[i - 1], b_in[i], c_inout[i])));
        }
        proof {
            assert(views(gates@) =~= views(before) + forward_block(a, b, c, i as int));
            assert(forward_ops(a, b, c, i + 1) == forward_ops(a, b, c, i as int) + forward_block(
                a,
                b,
                c,
                i as int,
            ));
            assert(views(gates@) =~= seq![Op::CCX(a[0], b[0], c[0])] + forward_ops(
                a,
                b,
                c,
                i + 1,
            ));
        }
        i = i + 1;
    }
    let mut j: usize = 2;
    proof {
        assert(backward_ops(a, b, c, 2) == Seq::<Op>::empty());
        assert(views(gates@) =~= seq![Op::CCX(a[0], b[0], c[0])] + forward_ops(a, b, c, n as int)
            + backward_ops(a, b, c, 2));
    }
    while j < n
        invariant
            n == a.len(),
            a == a_in@,
            b == b_in@,
            c == c_inout@,
            a.len() == b.len(),
            c.len() == a.len(),
            2 <= j,
            j <= n || j == 2,
            views(gates@) == seq![Op::CCX(a[0], b[0], c[0])] + forward_ops(a, b, c, n as int)
                + backward_ops(a, b, c, j as int),
        decreases n - j,
    {
        let k = n - j;
        let ghost before = gates@;
        gates.push(Gate::CCX(CCX::new(c_inout[k - 1], b_in[k], c_inout[k])));
        gates.push(Gate::CX(CX::new(a_in[k], b_in[k])));
        gates.push(Gate::CCX(CCX::new(a_in[k], b_in[k], c_inout[k])));
        gates.push(Gate::CX(CX::new(a_in[k], b_in[k])));
        gates.push(Gate::CX(CX::new(c_inout[k - 1], b_in[k])));
        proof {
            assert(views(gates@) =~= views(before) + backward_block(a, b, c, k as int));
            assert(backward_ops(a, b, c, j + 1) == backward_ops(a, b, c, j as int)
                + backward_block(a, b, c, k as int));
            assert(views(gates@) =~= seq![Op::CCX(a[0], b[0], c[0])] + forward_ops(
                a,
                b,
                c,
                n as int,
            ) + backward_ops(a, b, c, j + 1));
        }
        j = j + 1;
    }
    let ghost before = gates@;
    gates.push(Gate::CCX(CCX::new(a_in[0], b_in[0], c_inout[0])));
    gates.push(Gate::CX(CX::new(a_in[0], b_in[0])));
    proof {
        if n == 1 {
            assert(backward_ops(a, b, c, j as int) == Seq::<Op>::empty());
            assert(backward_ops(a, b, c, n as int) == Seq::<Op>::empty());
        } else {
            assert(j == n);
        }
        assert(views(gates@) =~= views(before) + seq![
            Op::CCX(a[0], b[0], c[0]),
            Op::CX(a[0], b[0]),
        ]);
    }
    gates
}

/// Ripple-carry adder `|a>|b>|0> -> |a>|a + b mod 2^n>|0>` over registers
/// of one length, with `c_inout` as the carry register.
pub fn full_adder_nbits(a_in: &[usize], b_in: &[usize], c_inout: &[usize]) -> (r: Result<
    U,
    QitError,
>)
    ensures
        match adder_check(a_in@, b_in@, c_inout@) {
            Some(e) => r == Err::<U, QitError>(e),
            None => r matches Ok(u) && views(u.gates@) == adder_ops(a_in@, b_in@, c_inout@),
        },
        in_range(a_in@ + b_in@ + c_inout@) ==> (r matches Ok(u) ==> adds_registers(
            views(u.gates@),
            a_in@,
            b_in@,
            c_inout@,
        )),
{
    if a_in.len() != b_in.len() || c_inout.len() != a_in.len() {
        return Err(QitError::LengthMismatch);
    }
    if a_in.len() == 0 {
        return Err(QitError::EmptyRegister);
    }
    let ab = concat(a_in, b_in);
    let all = concat(ab.as_slice(), c_inout);
    if !check_unique(all.as_slice()) {
        return Err(QitError::DuplicateQubit);
    }
    proof {
        if in_range(a_in@ + b_in@ + c_inout@) {
            lemma_adder_meets(a_in@, b_in@, c_inout@);
        }
    }
    Ok(U::new(adder_gates(a_in, b_in, c_inout), "full_adder".to_owned()))
}

/// The subtractor `|a>|b>|0> -> |a>|b - a mod 2^n>|0>`: the reverse of the adder.
pub fn substract_nbits(a_in: &[usize], b_in: &[usize], c_inout: &[usize]) -> (r: Result<
    U,
    QitError,
>)
    ensures
        match adder_check(a_in@, b_in@, c_inout@) {
            Some(e) => r == Err::<U, QitError>(e),
            None => r matches Ok(u) && views(u.gates@) == reversed_list(
                adder_ops(a_in@, b_in@, c_inout@),
            ),
        },
        in_range(a_in@ + b_in@ + c_inout@) ==> (r matches Ok(u) ==> undoes_adder(
            views(u.gates@),
            a_in@,
            b_in@,
            c_inout@,
        )),
{
    match full_adder_nbits(a_in, b_in, c_inout) {
        Ok(u) => {
            proof {
                if in_range(a_in@ + b_in@ + c_inout@) {
                    lemma_adder_meets(a_in@, b_in@, c_inout@);
                }
            }
            let mut sub = u;
            sub.reverse();
            Ok(sub)
        },
        Err(e) => Err(e),
    }
}

/// A copy of `b[lo .. hi]`.
fn copy_range(b: &[usize], lo: usize, hi: usize) -> (r: Vec<usize>)
    requires
        lo <= hi <= b@.len(),
    ensures
        r@ == b@.subrange(lo as int, hi as int),
{
    let mut r: Vec<usize> = Vec::new();
    let mut i: usize = lo;
    while i < hi
        invariant
            lo <= i <= hi,
            hi <= b@.len(),
            r@ == b@.subrange(lo as int, i as int),
        decreases hi - i,
    {
        r.push(b[i]);
        i = i + 1;
        proof {
            assert(r@ =~= b@.subrange(lo as int, i as int));
        }
    }
    r
}

/// The NOT on `b[i]` controlled by every bit of `b[m .. i]`: the carry of an
/// increment at position `m` reaching position `i`.
pub open spec fn carry_gate(b: Seq<usize>, m: int, i: int) -> Op {
    let cs = b.subrange(m, i);
    if cs.len() == 1 {
        Op::CX(cs[0], b[i])
    } else if cs.len() == 2 {
        Op::CCX(cs[0], cs[1], b[i])
    } else {
        Op::CNX(cs, b[i])
    }
}

/// The carry gates for positions `b.len() - 1` down to `b.len() - k + m + 1`.
pub open spec fn carry_ops(b: Seq<usize>, m: int, k: int) -> Seq<Op>
    decreases k - m,
{
    if k <= m + 1 {
        seq![]
    } else {
        carry_ops(b, m, k - 1) + seq![carry_gate(b, m, b.len() - (k - 1) + m)]
    }
}

/// Adds `2^m` to the register `b` (least significant qubit first), carries
/// cascading from the top down, the top qubit's carry lost.
pub open spec fn power_adder_ops(b: Seq<usize>, m: int) -> Seq<Op> {
    carry_ops(b, m, b.len() as int) + seq![Op::X(b[m])]
}

/// Bit `i` of `a`.
pub open spec fn bit_of(a: usize, i: int) -> bool {
    0 <= i < 64 && ((a as u64) >> (i as u64)) & 1 == 1
}

/// Whether `a` is below `2^w`.
pub open spec fn fits(a: usize, w: int) -> bool {
    w >= 64 || ((a as u64) >> (w as u64)) == 0
}

/// Adds to `b` each power `2^i`, `i < k`, that is a bit of `a`, lowest first.
pub open spec fn const_adder_ops(b: Seq<usize>, a: usize, k: int) -> Seq<Op>
    decreases k,
{
    if k <= 0 {
        seq![]
    } else {
        const_adder_ops(b, a, k - 1) + if bit_of(a, k - 1) {
            power_adder_ops(b, k - 1)
        } else {
            seq![]
        }
    }
}

fn power_adder_gates(b: &[usize], m: usize) -> (r: Vec<Gate>)
    requires
        m < b@.len(),
    ensures
        views(r@) == power_adder_ops(b@, m as int),
{
    let n = b.len();
    let mut gates: Vec<Gate> = Vec::new();
    let mut k: usize = m + 1;
    while k < n
        invariant
            n == b@.len(),
            m < n,
            m + 1 <= k <= n,
            views(gates@) == carry_ops(b@, m as int, k as int),
        decreases n - k,
    {
        let i = n - k + m;
        let cs = copy_range(b, m, i);
        let g = if cs.len() == 1 {
            Gate::CX(CX::new(cs[0], b[i]))
        } else if cs.len() == 2 {
            Gate::CCX(CCX::new(cs[0], cs[1], b[i]))
        } else {
            Gate::CNX(CNX::new(cs, b[i]))
        };
        proof {
            assert(g@ == carry_gate(b@, m as int, i as int));
        }
        gates.push(g);
        proof {
            assert(views(gates@) =~= carry_ops(b@, m as int, k + 1));
        }
        k = k + 1;
    }
    gates.push(Gate::X(X::new(b[m])));
    proof {
        assert(views(gates@) =~= power_adder_ops(b@, m as int));
    }
    gates
}

fn const_adder_gates(b: &[usize], a_const: usize, k: usize) -> (r: Vec<Gate>)
    requires
        k <= b@.len(),
    ensures
        views(r@) == const_adder_ops(b@, a_const, k as int),
{
    let mut gates: Vec<Gate> = Vec::new();
    let mut i: usize = 0;
    while i < k
        invariant
            k <= b@.len(),
            i <= k,
            views(gates@) == const_adder_ops(b@, a_const, i as int),
        decreases k - i,
    {
        if i < 64 && ((a_const as u64) >> (i as u64)) & 1 == 1 {
            let more = power_adder_gates(b, i);
            append_gates(&mut gates, more);
        }
        i = i + 1;
    }
    gates
}

/// Why a register cannot take `2^m`, if it cannot.
pub open spec fn power_check(b: Seq<usize>, m: int) -> Option<QitError> {
    if b.len() == 0 {
        Some(QitError::EmptyRegister)
    } else if m >= b.len() {
        Some(QitError::ConstantTooLarge)
    } else if !b.no_duplicates() {
        Some(QitError::DuplicateQubit)
    } else {
        None
    }
}

/// Why a register whose top qubit takes the overflow cannot take `2^m`.
pub open spec fn top_power_check(b: Seq<usize>, m: int) -> Option<QitError> {
    if b.len() == 0 {
        Some(QitError::EmptyRegister)
    } else if m + 1 >= b.len() {
        Some(QitError::ConstantTooLarge)
    } else if !b.no_duplicates() {
        Some(QitError::DuplicateQubit)
    } else {
        None
    }
}

/// `|b> -> |b + 2^m>` where the top qubit of `b` takes the overflow, so `m`
/// must lie below it.
pub fn add_const_2_power(b: &[usize], m: usize) -> (r: Result<U, QitError>)
    ensures
        match top_power_check(b@, m as int) {
            Some(e) => r == Err::<U, QitError>(e),
            None => r matches Ok(u) && views(u.gates@) == power_adder_ops(b@, m as int),
        },
        in_range(b@) ==> (r matches Ok(u) ==> adds_constant(
            views(u.gates@),
            b@,
            pow2(m as nat) as int,
        )),
{
    proof {
        if top_power_check(b@, m as int) is None && in_range(b@) {
            lemma_power_adder_meets(b@, m as int);
        }
    }
    if b.len() == 0 {
        return Err(QitError::EmptyRegister);
    }
    if m >= b.len() - 1 {
        return Err(QitError::ConstantTooLarge);
    }
    if !check_unique(b) {
        return Err(QitError::DuplicateQubit);
    }
    Ok(U::new(power_adder_gates(b, m), "add_const_2^n".to_owned()))
}

/// Why `b` with the qubit `overflow` above it cannot take `2^m`.
pub open spec fn overflow_power_check(b: Seq<usize>, overflow: usize, m: int) -> Option<QitError> {
    if b.len() == 0 {
        Some(QitError::EmptyRegister)
    } else if m >= b.len() {
        Some(QitError::ConstantTooLarge)
    } else if !b.push(overflow).no_duplicates() {
        Some(QitError::DuplicateQubit)
    } else {
        None
    }
}

/// `|0>|b> -> |overflow>|b + 2^m>`, the carry out of `b` landing in `overflow`.
pub fn overflow_qadd_const_2_power(b: &[usize], overflow: usize, m: usize) -> (r: Result<
    U,
    QitError,
>)
    ensures
        match overflow_power_check(b@, overflow, m as int) {
            Some(e) => r == Err::<U, QitError>(e),
            None => r matches Ok(u) && views(u.gates@) == power_adder_ops(
                b@.push(overflow),
                m as int,
            ),
        },
        in_range(b@.push(overflow)) ==> (r matches Ok(u) ==> adds_constant(
            views(u.gates@),
            b@.push(overflow),
            pow2(m as nat) as int,
        )),
{
    proof {
        if overflow_power_check(b@, overflow, m as int) is None && in_range(b@.push(overflow)) {
            lemma_power_adder_meets(b@.push(overflow), m as int);
        }
    }
    if b.len() == 0 {
        return Err(QitError::EmptyRegister);
    }
    if m >= b.len() {
        return Err(QitError::ConstantTooLarge);
    }
    let all = concat(b, &[overflow]);
    proof {
        assert(all@ =~= b@.push(overflow));
    }
    if !check_unique(all.as_slice()) {
        return Err(QitError::DuplicateQubit);
    }
    Ok(U::new(power_adder_gates(all.as_slice(), m), "o_qadd_const_2^n".to_owned()))
}

/// `|b> -> |b + 2^m mod 2^n>`.
pub fn wrapping_qadd_const_2_power(b: &[usize], m: usize) -> (r: Result<U, QitError>)
    ensures
        match power_check(b@, m as int) {
            Some(e) => r == Err::<U, QitError>(e),
            None => r matches Ok(u) && views(u.gates@) == power_adder_ops(b@, m as int),
        },
        in_range(b@) ==> (r matches Ok(u) ==> adds_constant(
            views(u.gates@),
            b@,
            pow2(m as nat) as int,
        )),
{
    proof {
        if power_check(b@, m as int) is None && in_range(b@) {
            lemma_power_adder_meets(b@, m as int);
        }
    }
    if b.len() == 0 {
        return Err(QitError::EmptyRegister);
    }
    if m >= b.len() {
        return Err(QitError::ConstantTooLarge);
    }
    if !check_unique(b) {
        return Err(QitError::DuplicateQubit);
    }
    Ok(U::new(power_adder_gates(b, m), "w_qadd_const_2^n".to_owned()))
}

/// Why `a_const` cannot be added to `b` with the top qubit of `b` taking the
/// overflow, if it cannot.
pub open spec fn top_const_check(b: Seq<usize>, a_const: usize) -> Option<QitError> {
    if b.len() <= 1 {
        Some(QitError::EmptyRegister)
    } else if !fits(a_const, b.len() - 1) {
        Some(QitError::ConstantTooLarge)
    } else if !b.no_duplicates() {
        Some(QitError::DuplicateQubit)
    } else {
        None
    }
}

/// Why `a_const` cannot be added to `b`, with `extra` qubits above it.
pub open spec fn const_check(b: Seq<usize>, extra: Seq<usize>, a_const: usize) -> Option<
    QitError,
> {
    if b.len() == 0 {
        Some(QitError::EmptyRegister)
    } else if !fits(a_const, b.len() as int) {
        Some(QitError::ConstantTooLarge)
    } else if !(b + extra).no_duplicates() {
        Some(QitError::DuplicateQubit)
    } else {
        None
    }
}

/// `|b> -> |b + a_const>`, the top qubit of `b` taking the overflow.
pub fn add_const(b: &[usize], a_const: usize) -> (r: Result<U, QitError>)
    ensures
        match top_const_check(b@, a_const) {
            Some(e) => r == Err::<U, QitError>(e),
            None => r matches Ok(u) && views(u.gates@) == const_adder_ops(
                b@,
                a_const,
                b@.len() - 1,
            ),
        },
        in_range(b@) ==> (r matches Ok(u) ==> adds_constant(views(u.gates@), b@, a_const as int)),
{
    proof {
        if top_const_check(b@, a_const) is None && in_range(b@) {
            lemma_const_adder_meets(b@, a_const, b@.len() - 1);
        }
    }
    if b.len() <= 1 {
        return Err(QitError::EmptyRegister);
    }
    let w = b.len() - 1;
    if w < 64 && ((a_const as u64) >> (w as u64)) != 0 {
        return Err(QitError::ConstantTooLarge);
    }
    if !check_unique(b) {
        return Err(QitError::DuplicateQubit);
    }
    Ok(U::new(const_adder_gates(b, a_const, w), "add_const".to_owned()))
}

/// `|0>|b> -> |overflow>|b + a_const>`.
pub fn overflow_qadd_const(b: &[usize], overflow: usize, a_const: usize) -> (r: Result<
    U,
    QitError,
>)
    ensures
        match const_check(b@, seq![overflow], a_const) {
            Some(e) => r == Err::<U, QitError>(e),
            None => r matches Ok(u) && views(u.gates@) == const_adder_ops(
                b@.push(overflow),
                a_const,
                b@.len() as int,
            ),
        },
        in_range(b@.push(overflow)) ==> (r matches Ok(u) ==> adds_constant(
            views(u.gates@),
            b@.push(overflow),
            a_const as int,
        )),
{
    proof {
        assert(b@ + seq![overflow] =~= b@.push(overflow));
        if const_check(b@, seq![overflow], a_const) is None && in_range(b@.push(overflow)) {
            lemma_const_adder_meets(b@.push(overflow), a_const, b@.len() as int);
        }
    }
    if b.len() == 0 {
        return Err(QitError::EmptyRegister);
    }
    if b.len() < 64 && ((a_const as u64) >> (b.len() as u64)) != 0 {
        return Err(QitError::ConstantTooLarge);
    }
    let all = concat(b, &[overflow]);
    proof {
        assert(all@ =~= b@.push(overflow));
        assert(b@ + seq![overflow] =~= b@.push(overflow));
    }
    if !check_unique(all.as_slice()) {
        return Err(QitError::DuplicateQubit);
    }
    Ok(U::new(const_adder_gates(all.as_slice(), a_const, b.len()), "o_qadd_const".to_owned()))
}

/// `|b> -> |b + a_const mod 2^n>`.
pub fn wrapping_qadd_const(b: &[usize], a_const: usize) -> (r: Result<U, QitError>)
    ensures
        match const_check(b@, seq![], a_const) {
            Some(e) => r == Err::<U, QitError>(e),
            None => r matches Ok(u) && views(u.gates@) == const_adder_ops(
                b@,
                a_const,
                b@.len() as int,
            ),
        },
        in_range(b@) ==> (r matches Ok(u) ==> adds_constant(views(u.gates@), b@, a_const as int)),
{
    proof {
        assert(b@ + Seq::<usize>::empty() =~= b@);
        if const_check(b@, seq![], a_const) is None && in_range(b@) {
            lemma_const_adder_meets(b@, a_const, b@.len() as int);
        }
    }
    if b.len() == 0 {
        return Err(QitError::EmptyRegister);
    }
    if b.len() < 64 && ((a_const as u64) >> (b.len() as u64)) != 0 {
        return Err(QitError::ConstantTooLarge);
    }
    if !check_unique(b) {
        return Err(QitError::DuplicateQubit);
    }
    Ok(U::new(const_adder_gates(b, a_const, b.len()), "w_qadd_const".to_owned()))
}

/// `|b> -> |b - a_const>`: the reverse of `add_const`.
pub fn sub_const(b: &[usize], a_const: usize) -> (r: Result<U, QitError>)
    ensures
        match top_const_check(b@, a_const) {
            Some(e) => r == Err::<U, QitError>(e),
            None => r matches Ok(u) && views(u.gates@) == reversed_list(
                const_adder_ops(b@, a_const, b@.len() - 1),
            ),
        },
        in_range(b@) ==> (r matches Ok(u) ==> undoes_const_adder(
            views(u.gates@),
            b@,
            a_const,
            b@.len() - 1,
        )),
{
    match add_const(b, a_const) {
        Ok(u) => {
            proof {
                if in_range(b@) {
                    lemma_const_subtractor_meets(b@, a_const, b@.len() - 1);
                }
            }
            let mut sub = u;
            sub.reverse();
            sub.rename("sub_const".to_owned());
            Ok(sub)
        },
        Err(e) => Err(e),
    }
}

/// `|overflow>|b> -> |0>|b - a_const>`: the reverse of `overflow_qadd_const`.
pub fn overflow_qsub_const(b: &[usize], overflow: usize, a_const: usize) -> (r: Result<
    U,
    QitError,
>)
    ensures
        match const_check(b@, seq![overflow], a_const) {
            Some(e) => r == Err::<U, QitError>(e),
            None => r matches Ok(u) && views(u.gates@) == reversed_list(
                const_adder_ops(b@.push(overflow), a_const, b@.len() as int),
            ),
        },
        in_range(b@.push(overflow)) ==> (r matches Ok(u) ==> undoes_const_adder(
            views(u.gates@),
            b@.push(overflow),
            a_const,
            b@.len() as int,
        )),
{
    match overflow_qadd_const(b, overflow, a_const) {
        Ok(u) => {
            proof {
                assert(b@ + seq![overflow] =~= b@.push(overflow));
                if in_range(b@.push(overflow)) {
                    lemma_const_subtractor_meets(b@.push(overflow), a_const, b@.len() as int);
                }
            }
            let mut sub = u;
            sub.reverse();
            sub.rename("o_qsub_const".to_owned());
            Ok(sub)
        },
        Err(e) => Err(e),
    }
}

/// `|b> -> |b - a_const mod 2^n>`: the reverse of `wrapping_qadd_const`.
pub fn wrapping_qsub_const(b: &[usize], a_const: usize) -> (r: Result<U, QitError>)
    ensures
        match const_check(b@, seq![], a_const) {
            Some(e) => r == Err::<U, QitError>(e),
            None => r matches Ok(u) && views(u.gates@) == reversed_list(
                const_adder_ops(b@, a_const, b@.len() as int),
            ),
        },
        in_range(b@) ==> (r matches Ok(u) ==> undoes_const_adder(
            views(u.gates@),
            b@,
            a_const,
            b@.len() as int,
        )),
{
    match wrapping_qadd_const(b, a_const) {
        Ok(u) => {
            proof {
                assert(b@ + Seq::<usize>::empty() =~= b@);
                if in_range(b@) {
                    lemma_const_subtractor_meets(b@, a_const, b@.len() as int);
                }
            }
            let mut sub = u;
            sub.reverse();
            sub.rename("w_qsub_const".to_owned());
            Ok(sub)
        },
        Err(e) => Err(e),
    }
}

/// `CX(t, n[i])` for each bit `i < k` of `num`: loads `num` into the register
/// `n` where `t` is 1.
pub open spec fn load_ops(t: usize, n: Seq<usize>, num: usize, k: int) -> Seq<Op>
    decreases k,
{
    if k <= 0 {
        seq![]
    } else {
        load_ops(t, n, num, k - 1) + if bit_of(num, k - 1) {
            seq![Op::CX(t, n[k - 1])]
        } else {
            seq![]
        }
    }
}

/// The nine stages of the modular adder `|a>|b>|N>|0> -> |a>|a + b mod N>|N>|0>`.
pub open spec fn mod_add_ops(
    a: Seq<usize>,
    b: Seq<usize>,
    n: Seq<usize>,
    z: Seq<usize>,
    t: usize,
    num: usize,
) -> Seq<Op> {
    let top = b.last();
    let load = load_ops(t, n, num, n.len() as int);
    adder_ops(a, b, z) + reversed_list(adder_ops(n, b, z)) + seq![
        Op::X(top),
        Op::CX(top, t),
        Op::X(top),
    ] + load + adder_ops(n, b, z) + load + reversed_list(adder_ops(a, b, z)) + seq![
        Op::CX(top, t),
    ] + adder_ops(a, b, z)
}

/// Why the registers cannot make a modular adder, if they cannot.
pub open spec fn mod_add_check(
    a: Seq<usize>,
    b: Seq<usize>,
    n: Seq<usize>,
    z: Seq<usize>,
    t: usize,
    num: usize,
) -> Option<QitError> {
    if a.len() != b.len() || n.len() != b.len() || z.len() != b.len() {
        Some(QitError::LengthMismatch)
    } else if b.len() == 0 {
        Some(QitError::EmptyRegister)
    } else if !fits(num, b.len() - 1) {
        Some(QitError::ConstantTooLarge)
    } else if !(a + b + n + z).push(t).no_duplicates() {
        Some(QitError::DuplicateQubit)
    } else {
        None
    }
}

fn load_gates(t: usize, n: &[usize], num: usize) -> (r: Vec<Gate>)
    ensures
        views(r@) == load_ops(t, n@, num, n@.len() as int),
{
    let mut gates: Vec<Gate> = Vec::new();
    let mut i: usize = 0;
    while i < n.len()
        invariant
            i <= n@.len(),
            views(gates@) == load_ops(t, n@, num, i as int),
        decreases n.len() - i,
    {
        if i < 64 && ((num as u64) >> (i as u64)) & 1 == 1 {
            gates.push(Gate::CX(CX::new(t, n[i])));
        }
        proof {
            assert(views(gates@) =~= load_ops(t, n@, num, i + 1));
        }
        i = i + 1;
    }
    gates
}

/// Modular adder `|a>|b>|N>|0>|0> -> |a>|a + b mod N>|N>|0>|0>`, where the
/// register `n_in` holds the modulus `num`, `zero` is the carry register and
/// `t` the flag qubit.
#[verifier::rlimit(40)]
pub fn mod_add(a: &[usize], b: &[usize], n_in: &[usize], zero: &[usize], t: usize, num: usize) -> (r:
    Result<U, QitError>)
    ensures
        match mod_add_check(a@, b@, n_in@, zero@, t, num) {
            Some(e) => r == Err::<U, QitError>(e),
            None => r matches Ok(u) && views(u.gates@) == mod_add_ops(
                a@,
                b@,
                n_in@,
                zero@,
                t,
                num,
            ),
        },
{
    if a.len() != b.len() || n_in.len() != b.len() || zero.len() != b.len() {
        return Err(QitError::LengthMismatch);
    }
    if b.len() == 0 {
        return Err(QitError::EmptyRegister);
    }
    let w = b.len() - 1;
    if w < 64 && ((num as u64) >> (w as u64)) != 0 {
        return Err(QitError::ConstantTooLarge);
    }
    let ab = concat(a, b);
    let abn = concat(ab.as_slice(), n_in);
    let abnz = concat(abn.as_slice(), zero);
    let all = concat(abnz.as_slice(), &[t]);
    proof {
        assert(all@ =~= (a@ + b@ + n_in@ + zero@).push(t));
    }
    if !check_unique(all.as_slice()) {
        return Err(QitError::DuplicateQubit);
    }
    let top = b[b.len() - 1];
    let mut gates = adder_gates(a, b, zero);
    append_gates(&mut gates, reverse_gates(adder_gates(n_in, b, zero)));
    let flag = vec![Gate::X(X::new(top)), Gate::CX(CX::new(top, t)), Gate::X(X::new(top))];
    proof {
        lemma_views(flag@);
        assert(views(flag@) =~= seq![Op::X(top), Op::CX(top, t), Op::X(top)]);
    }
    append_gates(&mut gates, flag);
    append_gates(&mut gates, load_gates(t, n_in, num));
    append_gates(&mut gates, adder_gates(n_in, b, zero));
    append_gates(&mut gates, load_gates(t, n_in, num));
    append_gates(&mut gates, reverse_gates(adder_gates(a, b, zero)));
    let unflag = vec![Gate::CX(CX::new(top, t))];
    proof {
        lemma_views(unflag@);
        assert(views(unflag@) =~= seq![Op::CX(top, t)]);
    }
    append_gates(&mut gates, unflag);
    append_gates(&mut gates, adder_gates(a, b, zero));
    proof {
        assert(views(gates@) =~= mod_add_ops(a@, b@, n_in@, zero@, t, num));
    }
    Ok(U::new(gates, "moduler_adder".to_owned()))
}

/// The modular adder by constants `|b>|0> -> |a + b mod N>|0>`, with the
/// qubit `of` above `b` taking the overflow.
pub open spec fn mod_add_const_ops(b: Seq<usize>, of: usize, a: usize, n: usize) -> Seq<Op> {
    let k = b.len() as int;
    let wide = b.push(of);
    const_adder_ops(wide, a, k) + reversed_list(const_adder_ops(wide, n, k)) + seq![
        Op::CU(of, const_adder_ops(b, n, k)),
    ] + reversed_list(const_adder_ops(wide, a, k)) + seq![Op::X(of)] + const_adder_ops(b, a, k)
}

/// Why the modular adder by constants cannot be built, if it cannot.
pub open spec fn mod_add_const_check(b: Seq<usize>, of: usize, a: usize, n: usize) -> Option<
    QitError,
> {
    if b.len() == 0 {
        Some(QitError::EmptyRegister)
    } else if !b.push(of).no_duplicates() {
        Some(QitError::DuplicateQubit)
    } else if !fits(a, b.len() as int) || !fits(n, b.len() as int) {
        Some(QitError::ConstantTooLarge)
    } else {
        None
    }
}

#[verifier::rlimit(40)]
fn mod_add_const_gates(b: &[usize], overflow: usize, a_const: usize, n_const: usize) -> (r: Vec<
    Gate,
>)
    ensures
        views(r@) == mod_add_const_ops(b@, overflow, a_const, n_const),
{
    let wide = concat(b, &[overflow]);
    proof {
        assert(wide@ =~= b@.push(overflow));
    }
    let k = b.len();
    let mut gates = const_adder_gates(wide.as_slice(), a_const, k);
    append_gates(&mut gates, reverse_gates(const_adder_gates(wide.as_slice(), n_const, k)));
    let inner = const_adder_gates(b, n_const, k);
    let cu = vec![Gate::CU(CU::new(overflow, inner, "cu-add_N".to_owned()))];
    proof {
        lemma_views(cu@);
        assert(views(cu@) =~= seq![Op::CU(overflow, const_adder_ops(b@, n_const, k as int))]);
    }
    append_gates(&mut gates, cu);
    append_gates(&mut gates, reverse_gates(const_adder_gates(wide.as_slice(), a_const, k)));
    let unflag = vec![Gate::X(X::new(overflow))];
    proof {
        lemma_views(unflag@);
        assert(views(unflag@) =~= seq![Op::X(overflow)]);
    }
    append_gates(&mut gates, unflag);
    append_gates(&mut gates, const_adder_gates(b, a_const, k));
    proof {
        assert(views(gates@) =~= mod_add_const_ops(b@, overflow, a_const, n_const));
    }
    gates
}

/// Modular adder by constants `|b>|0> -> |a_const + b mod n_const>|0>` for
/// `a_const, b < n_const`, with `overflow` as the flag qubit.
pub fn mod_add_const(b: &[usize], overflow: usize, a_const: usize, n_const: usize) -> (r: Result<
    U,
    QitError,
>)
    ensures
        match mod_add_const_check(b@, overflow, a_const, n_const) {
            Some(e) => r == Err::<U, QitError>(e),
            None => r matches Ok(u) && views(u.gates@) == mod_add_const_ops(
                b@,
                overflow,
                a_const,
                n_const,
            ),
        },
{
    if b.len() == 0 {
        return Err(QitError::EmptyRegister);
    }
    let wide = concat(b, &[overflow]);
    proof {
        assert(wide@ =~= b@.push(overflow));
    }
    if !check_unique(wide.as_slice()) {
        return Err(QitError::DuplicateQubit);
    }
    let k = b.len();
    if k < 64 && (((a_const as u64) >> (k as u64)) != 0 || ((n_const as u64) >> (k as u64)) != 0) {
        return Err(QitError::ConstantTooLarge);
    }
    Ok(U::new(mod_add_const_gates(b, overflow, a_const, n_const), "mod_add_const".to_owned()))
}

/// `a * 2^i mod n`.
pub open spec fn shifted_mod(a: usize, i: int, n: usize) -> usize {
    ((a * pow2(i as nat)) % (n as int)) as usize
}

/// For each bit `x[i]`, `i < k`, the modular addition of `a * 2^i mod N`
/// into `tar`, controlled by that bit.
pub open spec fn mul_stage_ops(
    x: Seq<usize>,
    tar: Seq<usize>,
    of: usize,
    a: usize,
    n: usize,
    k: int,
) -> Seq<Op>
    decreases k,
{
    if k <= 0 {
        seq![]
    } else {
        mul_stage_ops(x, tar, of, a, n, k - 1) + seq![
            Op::CU(x[k - 1], mod_add_const_ops(tar, of, shifted_mod(a, k - 1, n), n)),
        ]
    }
}

/// `CCX(cont, x[i], tar[i])` for each `i < k`.
pub open spec fn copy_back_ops(cont: usize, x: Seq<usize>, tar: Seq<usize>, k: int) -> Seq<Op>
    decreases k,
{
    if k <= 0 {
        seq![]
    } else {
        copy_back_ops(cont, x, tar, k - 1) + seq![Op::CCX(cont, x[k - 1], tar[k - 1])]
    }
}

/// Controlled multiplication by a constant modulo `N`:
/// `|x>|0> -> |x>|a x mod N>` where `cont` is 1, `|x>|0> -> |x>|x>` where it is 0.
pub open spec fn cmm_ops(
    x: Seq<usize>,
    tar: Seq<usize>,
    of: usize,
    cont: usize,
    a: usize,
    n: usize,
) -> Seq<Op> {
    seq![Op::CU(cont, mul_stage_ops(x, tar, of, a, n, x.len() as int)), Op::X(cont)]
        + copy_back_ops(cont, x, tar, x.len() as int) + seq![Op::X(cont)]
}

/// Why the controlled multiplier cannot be built, if it cannot.
pub open spec fn cmm_check(
    x: Seq<usize>,
    tar: Seq<usize>,
    of: usize,
    cont: usize,
    a: usize,
    n: usize,
) -> Option<QitError> {
    if tar.len() != x.len() {
        Some(QitError::LengthMismatch)
    } else if !fits(a, x.len() as int) || !fits(n, x.len() as int) {
        Some(QitError::ConstantTooLarge)
    } else if n == 0 {
        Some(QitError::InvalidModulus)
    } else if !(x + tar + seq![cont, of]).no_duplicates() {
        Some(QitError::DuplicateQubit)
    } else {
        None
    }
}

proof fn lemma_double_mod(a: usize, i: nat, n: usize, c: usize)
    requires
        n > 0,
        c == shifted_mod(a, i as int, n),
        c < n,
    ensures
        (if c >= n - c { c - (n - c) } else { c + c }) == shifted_mod(a, (i + 1) as int, n) as int,
{
    let p = pow2(i);
    lemma_pow2_unfold(i + 1);
    assert(pow2(i + 1) == 2 * p);
    lemma_mod_bound(a * p, n as int);
    lemma_mul_mod_noop_right(2, a * p, n as int);
    assert(a * (2 * p) == 2 * (a * p)) by (nonlinear_arith);
    let d = (2 * c) as int;
    if c >= n - c {
        lemma_fundamental_div_mod_converse_mod(d, n as int, 1, d - n);
    } else {
        lemma_small_mod(d as nat, n as nat);
    }
}

#[verifier::rlimit(40)]
fn cmm_gates(
    x: &[usize],
    tar_reg: &[usize],
    overflow: usize,
    cont: usize,
    a_const: usize,
    n_const: usize,
) -> (r: Vec<Gate>)
    requires
        tar_reg@.len() == x@.len(),
        n_const > 0,
    ensures
        views(r@) == cmm_ops(x@, tar_reg@, overflow, cont, a_const, n_const),
{
    let mut mul: Vec<Gate> = Vec::new();
    let mut c: usize = a_const % n_const;
    proof {
        assert(pow2(0) == 1) by {
            lemma2_to64();
        }
        assert(a_const * pow2(0) == a_const);
    }
    let mut i: usize = 0;
    while i < x.len()
        invariant
            tar_reg@.len() == x@.len(),
            n_const > 0,
            i <= x@.len(),
            c == shifted_mod(a_const, i as int, n_const),
            views(mul@) == mul_stage_ops(x@, tar_reg@, overflow, a_const, n_const, i as int),
        decreases x.len() - i,
    {
        let adder = mod_add_const_gates(tar_reg, overflow, c, n_const);
        mul.push(Gate::CU(CU::new(x[i], adder, "mod_add_const".to_owned())));
        proof {
            assert(views(mul@) =~= mul_stage_ops(
                x@,
                tar_reg@,
                overflow,
                a_const,
                n_const,
                i + 1,
            ));
            lemma_double_mod(a_const, i as nat, n_const, c);
            lemma_mod_bound(a_const * pow2(i as nat), n_const as int);
        }
        c = if c >= n_const - c {
            c - (n_const - c)
        } else {
            c + c
        };
        i = i + 1;
    }
    let mut gates: Vec<Gate> = Vec::new();
    gates.push(Gate::CU(CU::new(cont, mul, "cu-mmul".to_owned())));
    gates.push(Gate::X(X::new(cont)));
    let mut j: usize = 0;
    while j < x.len()
        invariant
            tar_reg@.len() == x@.len(),
            j <= x@.len(),
            views(gates@) == seq![
                Op::CU(cont, mul_stage_ops(x@, tar_reg@, overflow, a_const, n_const, x@.len() as int)),
                Op::X(cont),
            ] + copy_back_ops(cont, x@, tar_reg@, j as int),
        decreases x.len() - j,
    {
        gates.push(Gate::CCX(CCX::new(cont, x[j], tar_reg[j])));
        proof {
            assert(views(gates@) =~= seq![
                Op::CU(cont, mul_stage_ops(x@, tar_reg@, overflow, a_const, n_const, x@.len() as int)),
                Op::X(cont),
            ] + copy_back_ops(cont, x@, tar_reg@, j + 1));
        }
        j = j + 1;
    }
    gates.push(Gate::X(X::new(cont)));
    proof {
        assert(views(gates@) =~= cmm_ops(x@, tar_reg@, overflow, cont, a_const, n_const));
    }
    gates
}

/// Controlled modular multiplication by a constant:
/// `|x>|0>|0>|cont> -> |x>|a_const x mod n_const>|0>|cont>` where `cont` is 1,
/// and `|x>|x>` where it is 0; `overflow` is the flag of the modular adders.
pub fn cmm_const(
    x: &[usize],
    tar_reg: &[usize],
    overflow: usize,
    cont: usize,
    a_const: usize,
    n_const: usize,
) -> (r: Result<U, QitError>)
    ensures
        match cmm_check(x@, tar_reg@, overflow, cont, a_const, n_const) {
            Some(e) => r == Err::<U, QitError>(e),
            None => r matches Ok(u) && views(u.gates@) == cmm_ops(
                x@,
                tar_reg@,
                overflow,
                cont,
                a_const,
                n_const,
            ),
        },
{
    if tar_reg.len() != x.len() {
        return Err(QitError::LengthMismatch);
    }
    let k = x.len();
    if k < 64 && (((a_const as u64) >> (k as u64)) != 0 || ((n_const as u64) >> (k as u64)) != 0) {
        return Err(QitError::ConstantTooLarge);
    }
    if n_const == 0 {
        return Err(QitError::InvalidModulus);
    }
    let xt = concat(x, tar_reg);
    let all = concat(xt.as_slice(), &[cont, overflow]);
    proof {
        assert(all@ =~= x@ + tar_reg@ + seq![cont, overflow]);
    }
    if !check_unique(all.as_slice()) {
        return Err(QitError::DuplicateQubit);
    }
    Ok(U::new(cmm_gates(x, tar_reg, overflow, cont, a_const, n_const), "cmm_const".to_owned()))
}

/// `a` for `i == 0`, then squared modulo `n` at each step: `a^(2^i) mod n`
/// for `i >= 1`.
pub open spec fn squared_const(a: usize, n: usize, i: nat) -> usize
    decreases i,
{
    if i == 0 {
        a
    } else {
        let c = squared_const(a, n, (i - 1) as nat);
        ((c * c) % (n as int)) as usize
    }
}

/// The inverse of `a` modulo `n`, in `[1, n)`.
pub open spec fn inverse_mod(a: usize, n: usize) -> usize {
    choose|s: usize| 1 <= s < n && #[trigger] ((a * s) % (n as int)) == 1
}

/// The inverse of `a` modulo `n`, squared modulo `n` at each step: the
/// inverse of `squared_const(a, n, i)`.
pub open spec fn squared_inverse(a: usize, n: usize, i: nat) -> usize
    decreases i,
{
    if i == 0 {
        inverse_mod(a, n)
    } else {
        let s = squared_inverse(a, n, (i - 1) as nat);
        ((s * s) % (n as int)) as usize
    }
}

/// For each exponent bit `x[i]`, `i < k`: multiply by `a^(2^i)`, swap the
/// product into `ax`, and clear the stale copy by the reversed multiplication
/// by the inverse.
pub open spec fn exp_stage_ops(
    x: Seq<usize>,
    ax: Seq<usize>,
    z: Seq<usize>,
    of: usize,
    a: usize,
    n: usize,
    k: int,
) -> Seq<Op>
    decreases k,
{
    if k <= 0 {
        seq![]
    } else {
        let i = (k - 1) as nat;
        exp_stage_ops(x, ax, z, of, a, n, k - 1) + cmm_ops(
            ax,
            z,
            of,
            x[k - 1],
            squared_const(a, n, i),
            n,
        ) + swap_ops(ax, z) + reversed_list(
            cmm_ops(ax, z, of, x[k - 1], squared_inverse(a, n, i), n),
        )
    }
}

/// Modular exponentiation `|x>|1>|0> -> |x>|a^x mod N>|0>` (the first gate
/// sets the accumulator to 1 from 0).
pub open spec fn me_ops(
    x: Seq<usize>,
    ax: Seq<usize>,
    z: Seq<usize>,
    of: usize,
    a: usize,
    n: usize,
) -> Seq<Op> {
    seq![Op::X(ax[0])] + exp_stage_ops(x, ax, z, of, a, n, x.len() as int)
}

/// Why the modular exponentiation cannot be built, if it cannot.
pub open spec fn me_check(
    x: Seq<usize>,
    ax: Seq<usize>,
    z: Seq<usize>,
    of: usize,
    a: usize,
    n: usize,
) -> Option<QitError> {
    if z.len() != ax.len() {
        Some(QitError::LengthMismatch)
    } else if ax.len() == 0 {
        Some(QitError::EmptyRegister)
    } else if n < 2 || n * n > usize::MAX {
        Some(QitError::InvalidModulus)
    } else if gcd(a as nat, n as nat) != 1 {
        Some(QitError::NotCoprime)
    } else if (x.len() > 0 && !fits(a, ax.len() as int)) || !fits(n, ax.len() as int) {
        Some(QitError::ConstantTooLarge)
    } else if !(x + ax + z).push(of).no_duplicates() {
        Some(QitError::DuplicateQubit)
    } else {
        None
    }
}

proof fn lemma_inverse_unique(a: usize, n: usize, s: usize, t: usize)
    requires
        1 <= s < n,
        1 <= t < n,
        (a * s) % (n as int) == 1,
        (a * t) % (n as int) == 1,
    ensures
        s == t,
{
    let m = n as int;
    lemma_small_mod(t as nat, n as nat);
    lemma_small_mod(s as nat, n as nat);
    lemma_mul_mod_noop_right(t as int, a * s, m);
    assert(t * (a * s) == (a * t) * s) by (nonlinear_arith);
    lemma_mul_mod_noop_left(a * t, s as int, m);
    assert(t as int * 1 == t);
}

proof fn lemma_square_inverse(c: int, s: int, m: int)
    requires
        m > 1,
        c >= 0,
        1 <= s < m,
        (c * s) % m == 1,
    ensures
        ((((c % m) * (c % m)) % m) * ((s * s) % m)) % m == 1,
        ((c % m) * (c % m)) % m == (c * c) % m,
        1 <= (s * s) % m < m,
{
    lemma_mul_mod_noop_general(c, c, m);
    lemma_mul_mod_noop_general(c * c, s * s, m);
    assert((c * c) * (s * s) == (c * s) * (c * s)) by (nonlinear_arith);
    lemma_mul_mod_noop_general(c * s, c * s, m);
    lemma_small_mod(1, m as nat);
    lemma_mod_bound(s * s, m);
    if (s * s) % m == 0 {
        lemma_mul_mod_noop_right(c * c, s * s, m);
        assert((c * c) * 0 == 0);
        lemma_small_mod(0, m as nat);
    }
}

#[verifier::rlimit(40)]
fn me_gates(
    x: &[usize],
    a_x: &[usize],
    zero: &[usize],
    overflow: usize,
    a_const: usize,
    n_const: usize,
) -> (r: Vec<Gate>)
    requires
        zero@.len() == a_x@.len(),
        a_x@.len() > 0,
        n_const > 1,
        n_const * n_const <= usize::MAX,
        gcd(a_const as nat, n_const as nat) == 1,
    ensures
        views(r@) == me_ops(x@, a_x@, zero@, overflow, a_const, n_const),
{
    let mut gates: Vec<Gate> = Vec::new();
    gates.push(Gate::X(X::new(a_x[0])));
    let mut c: usize = a_const;
    let mut s: usize = mod_inv(a_const, n_const);
    proof {
        lemma_inverse_unique(a_const, n_const, s, inverse_mod(a_const, n_const));
    }
    let mut i: usize = 0;
    while i < x.len()
        invariant
            zero@.len() == a_x@.len(),
            n_const > 1,
            n_const * n_const <= usize::MAX,
            i <= x@.len(),
            c == squared_const(a_const, n_const, i as nat),
            s == squared_inverse(a_const, n_const, i as nat),
            1 <= s < n_const,
            (c * s) % (n_const as int) == 1,
            views(gates@) == seq![Op::X(a_x@[0])] + exp_stage_ops(
                x@,
                a_x@,
                zero@,
                overflow,
                a_const,
                n_const,
                i as int,
            ),
        decreases x.len() - i,
    {
        append_gates(&mut gates, cmm_gates(a_x, zero, overflow, x[i], c, n_const));
        append_gates(&mut gates, swap_gates(a_x, zero));
        append_gates(&mut gates, reverse_gates(cmm_gates(a_x, zero, overflow, x[i], s, n_const)));
        proof {
            assert(views(gates@) =~= seq![Op::X(a_x@[0])] + exp_stage_ops(
                x@,
                a_x@,
                zero@,
                overflow,
                a_const,
                n_const,
                i + 1,
            ));
            lemma_square_inverse(c as int, s as int, n_const as int);
            lemma_mod_bound(c as int, n_const as int);
            lemma_mul_inequality(c as int % n_const as int, n_const as int, c as int % n_const as int);
            lemma_mul_inequality(c as int % n_const as int, n_const as int, n_const as int);
            lemma_mul_inequality(s as int, n_const as int, s as int);
            lemma_mul_inequality(s as int, n_const as int, n_const as int);
            lemma_mul_is_commutative(c as int % n_const as int, n_const as int);
            lemma_mul_is_commutative(s as int, n_const as int);
        }
        let r = c % n_const;
        c = (r * r) % n_const;
        s = (s * s) % n_const;
        i = i + 1;
    }
    gates
}

/// Modular exponentiation `|x>|0>|0> -> |x>|a_const^x mod n_const>|0>`:
/// `a_x` is the accumulator, `zero` the scratch register and `overflow` the
/// flag of the modular adders. `a_const` must be coprime with `n_const`.
pub fn me_const(
    x: &[usize],
    a_x: &[usize],
    zero: &[usize],
    overflow: usize,
    a_const: usize,
    n_const: usize,
) -> (r: Result<U, QitError>)
    ensures
        match me_check(x@, a_x@, zero@, overflow, a_const, n_const) {
            Some(e) => r == Err::<U, QitError>(e),
            None => r matches Ok(u) && views(u.gates@) == me_ops(
                x@,
                a_x@,
                zero@,
                overflow,
                a_const,
                n_const,
            ),
        },
{
    if zero.len() != a_x.len() {
        return Err(QitError::LengthMismatch);
    }
    if a_x.len() == 0 {
        return Err(QitError::EmptyRegister);
    }
    if n_const < 2 || n_const > usize::MAX / n_const {
        proof {
            if n_const >= 2 {
                lemma_div_is_ordered_by_denominator(usize::MAX as int, 2, n_const as int);
                lemma_fundamental_div_mod(usize::MAX as int, n_const as int);
                assert(n_const * n_const > usize::MAX) by (nonlinear_arith)
                    requires
                        n_const > usize::MAX / n_const,
                        n_const >= 2,
                        usize::MAX == n_const * (usize::MAX / n_const) + usize::MAX % n_const,
                        usize::MAX % n_const < n_const,
                ;
            }
        }
        return Err(QitError::InvalidModulus);
    }
    proof {
        lemma_fundamental_div_mod(usize::MAX as int, n_const as int);
        assert(n_const * n_const <= usize::MAX) by (nonlinear_arith)
            requires
                n_const <= usize::MAX / n_const,
                usize::MAX == n_const * (usize::MAX / n_const) + usize::MAX % n_const,
                usize::MAX % n_const >= 0,
                n_const >= 2,
        ;
    }
    if !crate::mod_funcs::is_coprime(a_const, n_const) {
        return Err(QitError::NotCoprime);
    }
    let k = a_x.len();
    if k < 64 && ((x.len() > 0 && ((a_const as u64) >> (k as u64)) != 0) || ((n_const as u64) >> (
    k as u64)) != 0) {
        return Err(QitError::ConstantTooLarge);
    }
    let xa = concat(x, a_x);
    let xaz = concat(xa.as_slice(), zero);
    let all = concat(xaz.as_slice(), &[overflow]);
    proof {
        assert(all@ =~= (x@ + a_x@ + zero@).push(overflow));
    }
    if !check_unique(all.as_slice()) {
        return Err(QitError::DuplicateQubit);
    }
    Ok(U::new(me_gates(x, a_x, zero, overflow, a_const, n_const), "me_const".to_owned()))
}

/// The first half of `x`.
pub open spec fn low_half(x: Seq<usize>) -> Seq<usize> {
    x.subrange(0, (x.len() / 2) as int)
}

/// The last half of `x`, from the top down.
pub open spec fn high_half_reversed(x: Seq<usize>) -> Seq<usize> {
    Seq::new(x.len() / 2, |i: int| x[x.len() - i - 1])
}

/// The controlled rotations `CU(x[j], R(x[i]))` of the transform, for
/// `j = i + 1 .. k`: by `2^-(j - i + 1)` of a turn, or for the inverse by
/// `1 - 2^-(j - i + 1)`.
pub open spec fn rotation_ops(x: Seq<usize>, i: int, k: int, inverse: bool) -> Seq<Op>
    decreases k - i,
{
    if k <= i + 1 {
        seq![]
    } else {
        let j = k - 1;
        let d = (j + 1 - i) as nat;
        let turns = if inverse {
            (pow2(d) - 1) as u64
        } else {
            1u64
        };
        rotation_ops(x, i, k - 1, inverse) + seq![Op::CU(x[j], seq![Op::R(x[i], turns, d as u32)])]
    }
}

/// For each qubit `x[i]`, `i < k`: a Hadamard, then its controlled rotations.
pub open spec fn fourier_ops(x: Seq<usize>, k: int, inverse: bool) -> Seq<Op>
    decreases k,
{
    if k <= 0 {
        seq![]
    } else {
        fourier_ops(x, k - 1, inverse) + seq![Op::H(x[k - 1])] + rotation_ops(
            x,
            k - 1,
            x.len() as int,
            inverse,
        )
    }
}

/// The quantum Fourier transform on `x`: the bit-reversal swap, then the
/// Hadamard and rotation blocks.
pub open spec fn qft_ops(x: Seq<usize>) -> Seq<Op> {
    swap_ops(low_half(x), high_half_reversed(x)) + fourier_ops(x, x.len() as int, false)
}

/// The inverse transform: the reverse of the forward shape built with the
/// complementary rotation angles.
pub open spec fn inv_qft_ops(x: Seq<usize>) -> Seq<Op> {
    reversed_list(
        swap_ops(low_half(x), high_half_reversed(x)) + fourier_ops(x, x.len() as int, true),
    )
}

/// Why a register cannot take the transform, if it cannot.
pub open spec fn qft_check(x: Seq<usize>) -> Option<QitError> {
    if x.len() > 63 {
        Some(QitError::RegisterTooLarge)
    } else if !x.no_duplicates() {
        Some(QitError::DuplicateQubit)
    } else {
        None
    }
}

#[verifier::rlimit(40)]
fn fourier_gates(x: &[usize], inverse: bool) -> (r: Vec<Gate>)
    requires
        x@.len() <= 63,
    ensures
        views(r@) == swap_ops(low_half(x@), high_half_reversed(x@)) + fourier_ops(
            x@,
            x@.len() as int,
            inverse,
        ),
{
    let n = x.len();
    let lo = copy_range(x, 0, n / 2);
    let mut hi: Vec<usize> = Vec::new();
    let mut h: usize = 0;
    while h < n / 2
        invariant
            n == x@.len(),
            h <= n / 2,
            hi@ == high_half_reversed(x@).subrange(0, h as int),
        decreases n / 2 - h,
    {
        hi.push(x[n - h - 1]);
        h = h + 1;
        proof {
            assert(hi@ =~= high_half_reversed(x@).subrange(0, h as int));
        }
    }
    proof {
        assert(hi@ =~= high_half_reversed(x@));
    }
    let mut gates = swap_gates(lo.as_slice(), hi.as_slice());
    let ghost head = views(gates@);
    let mut i: usize = 0;
    while i < n
        invariant
            n == x@.len(),
            n <= 63,
            i <= n,
            head == swap_ops(low_half(x@), high_half_reversed(x@)),
            views(gates@) == head + fourier_ops(x@, i as int, inverse),
        decreases n - i,
    {
        let ghost before = views(gates@);
        gates.push(Gate::H(H::new(x[i])));
        let mut j: usize = i + 1;
        proof {
            assert(rotation_ops(x@, i as int, j as int, inverse) == Seq::<Op>::empty());
            assert(views(gates@) =~= before + seq![Op::H(x@[i as int])] + rotation_ops(
                x@,
                i as int,
                j as int,
                inverse,
            ));
        }
        while j < n
            invariant
                n == x@.len(),
                n <= 63,
                i < n,
                i + 1 <= j <= n,
                views(gates@) == before + seq![Op::H(x@[i as int])] + rotation_ops(
                    x@,
                    i as int,
                    j as int,
                    inverse,
                ),
            decreases n - j,
        {
            let d = j + 1 - i;
            proof {
                lemma_pow2_pos(d as nat);
                lemma_pow2_strictly_increases(d as nat, 64);
                lemma2_to64();
                lemma_u64_shl_is_mul(1, d as u64);
            }
            let turns: u64 = if inverse {
                (1u64 << (d as u64)) - 1
            } else {
                1
            };
            let rot = vec![Gate::R(RGate::new(x[i], turns, d as u32))];
            proof {
                lemma_views(rot@);
                assert(views(rot@) =~= seq![Op::R(x@[i as int], turns, d as u32)]);
            }
            gates.push(Gate::CU(CU::new(x[j], rot, "r".to_owned())));
            proof {
                assert(views(gates@) =~= before + seq![Op::H(x@[i as int])] + rotation_ops(
                    x@,
                    i as int,
                    j + 1,
                    inverse,
                ));
            }
            j = j + 1;
        }
        proof {
            assert(views(gates@) =~= head + fourier_ops(x@, i + 1, inverse));
        }
        i = i + 1;
    }
    gates
}

/// The quantum Fourier transform `|j> -> sum_k exp(2 pi i jk / 2^n) |k>` on
/// the register `x`.
pub fn qft(x: &[usize]) -> (r: Result<U, QitError>)
    ensures
        match qft_check(x@) {
            Some(e) => r == Err::<U, QitError>(e),
            None => r matches Ok(u) && views(u.gates@) == qft_ops(x@),
        },
{
    if x.len() > 63 {
        return Err(QitError::RegisterTooLarge);
    }
    if !check_unique(x) {
        return Err(QitError::DuplicateQubit);
    }
    Ok(U::new(fourier_gates(x, false), "qft".to_owned()))
}

/// The inverse quantum Fourier transform on the register `x`.
pub fn inv_qft(x: &[usize]) -> (r: Result<U, QitError>)
    ensures
        match qft_check(x@) {
            Some(e) => r == Err::<U, QitError>(e),
            None => r matches Ok(u) && views(u.gates@) == inv_qft_ops(x@),
        },
{
    if x.len() > 63 {
        return Err(QitError::RegisterTooLarge);
    }
    if !check_unique(x) {
        return Err(QitError::DuplicateQubit);
    }
    let mut u = U::new(fourier_gates(x, true), "iqft".to_owned());
    u.reverse();
    Ok(u)
}

} // verus!
