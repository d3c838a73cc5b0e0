//! Gates and composite circuits, with a mathematical model of a gate tree.
use crate::error::QitError;
use crate::walker::BitSlideIndex;
use vstd::prelude::*;

verus! {

/// The mathematical model of a gate tree: qubit indices, phases and the
/// ordered lists of sub-gates, without the display labels.
pub enum Op {
    H(usize),
    X(usize),
    Y(usize),
    Z(usize),
    /// A phase rotation by `turns / 2^log2_den` of a full turn.
    R(usize, u64, u32),
    CX(usize, usize),
    CCX(usize, usize, usize),
    CNX(Seq<usize>, usize),
    CU(usize, Seq<Op>),
    U(Seq<Op>),
}

/// Hadamard gate on one qubit.
#[derive(Clone, Copy)]
pub struct H {
    pub target_bit: usize,
}

/// Pauli-X (NOT) gate on one qubit.
#[derive(Clone, Copy)]
pub struct X {
    pub target_bit: usize,
}

/// Pauli-Y gate on one qubit.
#[derive(Clone, Copy)]
pub struct Y {
    pub target_bit: usize,
}

/// Pauli-Z gate on one qubit.
#[derive(Clone, Copy)]
pub struct Z {
    pub target_bit: usize,
}

/// Phase rotation: multiplies the amplitude of each basis string whose target
/// bit is 1 by `exp(i * angle)`, with `angle = 2 * pi * turns / 2^log2_den`.
#[derive(Clone, Copy)]
pub struct R {
    pub target_bit: usize,
    pub turns: u64,
    pub log2_den: u32,
}

/// NOT on the target, controlled by one qubit.
#[derive(Clone, Copy)]
pub struct CX {
    pub control_bit: usize,
    pub target_bit: usize,
}

/// NOT on the target, controlled by two qubits.
#[derive(Clone, Copy)]
pub struct CCX {
    pub control_bit1: usize,
    pub control_bit2: usize,
    pub target_bit: usize,
}

/// NOT on the target, controlled by any number of qubits.
pub struct CNX {
    pub control_bits: Vec<usize>,
    pub target_bit: usize,
}

/// An ordered list of gates that acts only where the control qubit is 1.
pub struct CU {
    pub control_bit: usize,
    pub gates: Vec<Gate>,
    pub label: String,
}

/// An ordered list of gates applied as one circuit.
pub struct U {
    pub gates: Vec<Gate>,
    pub label: String,
}

/// Any gate or circuit.
pub enum Gate {
    H(H),
    X(X),
    Y(Y),
    Z(Z),
    R(R),
    CX(CX),
    CCX(CCX),
    CNX(CNX),
    CU(CU),
    U(U),
}

impl View for Gate {
    type V = Op;

    open spec fn view(&self) -> Op
        decreases self,
    {
        match self {
            Gate::H(g) => Op::H(g.target_bit),
            Gate::X(g) => Op::X(g.target_bit),
            Gate::Y(g) => Op::Y(g.target_bit),
            Gate::Z(g) => Op::Z(g.target_bit),
            Gate::R(g) => Op::R(g.target_bit, g.turns, g.log2_den),
            Gate::CX(g) => Op::CX(g.control_bit, g.target_bit),
            Gate::CCX(g) => Op::CCX(g.control_bit1, g.control_bit2, g.target_bit),
            Gate::CNX(g) => Op::CNX(g.control_bits@, g.target_bit),
            Gate::CU(g) => Op::CU(g.control_bit, views(g.gates@)),
            Gate::U(g) => Op::U(views(g.gates@)),
        }
    }
}

/// The models of a list of gates.
pub open spec fn views(gs: Seq<Gate>) -> Seq<Op>
    decreases gs,
{
    if gs.len() == 0 {
        seq![]
    } else {
        views(gs.drop_last()).push(gs.last()@)
    }
}


pub broadcast proof fn lemma_views(gs: Seq<Gate>)
    ensures
        #[trigger] views(gs).len() == gs.len(),
        forall|i: int| 0 <= i < gs.len() ==> #[trigger] views(gs)[i] == gs[i]@,
    decreases gs.len(),
{
    if gs.len() > 0 {
        lemma_views(gs.drop_last());
        assert(views(gs) == views(gs.drop_last()).push(gs.last()@));
        assert(views(gs).len() == gs.len());
        assert forall|i: int| 0 <= i < gs.len() implies #[trigger] views(gs)[i] == gs[i]@ by {
            if i < gs.len() - 1 {
                assert(gs.drop_last()[i] == gs[i]);
            }
        }
    }
}

pub broadcast proof fn lemma_views_push(gs: Seq<Gate>, g: Gate)
    ensures
        #[trigger] views(gs.push(g)) == views(gs).push(g@),
{
    assert(gs.push(g).drop_last() =~= gs);
}

/// The structural reverse of a gate: every composite has its sub-gates
/// reversed, each in turn, and their order inverted. Leaf gates are their own
/// reverse.
pub open spec fn reversed(op: Op) -> Op
    decreases op,
{
    match op {
        Op::CU(c, gs) => Op::CU(c, reversed_list(gs)),
        Op::U(gs) => Op::U(reversed_list(gs)),
        _ => op,
    }
}

/// The reverse of each gate of a list, in the opposite order.
pub open spec fn reversed_list(gs: Seq<Op>) -> Seq<Op>
    decreases gs,
{
    if gs.len() == 0 {
        seq![]
    } else {
        seq![reversed(gs.last())] + reversed_list(gs.drop_last())
    }
}

impl H {
    pub fn new(target_bit: usize) -> (r: Self)
        ensures
            r.target_bit == target_bit,
    {
        H { target_bit }
    }
}

impl X {
    pub fn new(target_bit: usize) -> (r: Self)
        ensures
            r.target_bit == target_bit,
    {
        X { target_bit }
    }
}

impl Y {
    pub fn new(target_bit: usize) -> (r: Self)
        ensures
            r.target_bit == target_bit,
    {
        Y { target_bit }
    }
}

impl Z {
    pub fn new(target_bit: usize) -> (r: Self)
        ensures
            r.target_bit == target_bit,
    {
        Z { target_bit }
    }
}

impl R {
    /// A rotation by `turns / 2^log2_den` of a full turn.
    pub fn new(target_bit: usize, turns: u64, log2_den: u32) -> (r: Self)
        ensures
            r.target_bit == target_bit,
            r.turns == turns,
            r.log2_den == log2_den,
    {
        R { target_bit, turns, log2_den }
    }
}

impl CX {
    pub fn new(control_bit: usize, target_bit: usize) -> (r: Self)
        ensures
            r.control_bit == control_bit,
            r.target_bit == target_bit,
    {
        CX { control_bit, target_bit }
    }
}

impl CCX {
    pub fn new(control_bit1: usize, control_bit2: usize, target_bit: usize) -> (r: Self)
        ensures
            r.control_bit1 == control_bit1,
            r.control_bit2 == control_bit2,
            r.target_bit == target_bit,
    {
        CCX { control_bit1, control_bit2, target_bit }
    }
}

impl CNX {
    pub fn new(control_bits: Vec<usize>, target_bit: usize) -> (r: Self)
        ensures
            r.control_bits@ == control_bits@,
            r.target_bit == target_bit,
    {
        CNX { control_bits, target_bit }
    }
}

impl CU {
    pub fn new(control_bit: usize, gates: Vec<Gate>, label: String) -> (r: Self)
        ensures
            r.control_bit == control_bit,
            r.gates@ == gates@,
            r.label@ == label@,
    {
        CU { control_bit, gates, label }
    }

    /// The circuit `u`, made to act only where `control_bit` is 1.
    pub fn from_u(control_bit: usize, u: U) -> (r: Self)
        ensures
            r.control_bit == control_bit,
            r.gates@ == u.gates@,
            r.label@ == u.label@,
    {
        CU { control_bit, gates: u.gates, label: u.label }
    }

    /// Turns the controlled circuit into its inverse.
    pub fn reverse(&mut self)
        ensures
            final(self).control_bit == old(self).control_bit,
            final(self).label@ == old(self).label@,
            views(final(self).gates@) == reversed_list(views(old(self).gates@)),
    {
        let mut gates: Vec<Gate> = Vec::new();
        std::mem::swap(&mut gates, &mut self.gates);
        self.gates = reverse_gates(gates);
    }
}

impl U {
    pub fn new(gates: Vec<Gate>, name: String) -> (r: Self)
        ensures
            r.gates@ == gates@,
            r.label@ == name@,
    {
        U { gates, label: name }
    }

    pub fn rename(&mut self, name: String)
        ensures
            final(self).gates@ == old(self).gates@,
            final(self).label@ == name@,
    {
        self.label = name;
    }

    /// Turns the circuit into its inverse.
    pub fn reverse(&mut self)
        ensures
            final(self).label@ == old(self).label@,
            views(final(self).gates@) == reversed_list(views(old(self).gates@)),
    {
        let mut gates: Vec<Gate> = Vec::new();
        std::mem::swap(&mut gates, &mut self.gates);
        self.gates = reverse_gates(gates);
    }
}

impl Gate {
    /// The inverse of this gate tree, as a new tree.
    pub fn into_reversed(self) -> (r: Gate)
        ensures
            r@ == reversed(self@),
        decreases self,
    {
        match self {
            Gate::CU(g) => {
                let gates = reverse_gates(g.gates);
                Gate::CU(CU { control_bit: g.control_bit, gates, label: g.label })
            },
            Gate::U(g) => {
                let gates = reverse_gates(g.gates);
                Gate::U(U { gates, label: g.label })
            },
            other => other,
        }
    }
}

/// Reverses each gate of the list and the order of the list.
pub fn reverse_gates(gates: Vec<Gate>) -> (r: Vec<Gate>)
    ensures
        views(r@) == reversed_list(views(gates@)),
    decreases gates@,
{
    broadcast use lemma_views;
    broadcast use vstd::seq::axiom_seq_index_decreases;

    let ghost orig = gates@;
    let ghost all = gates@;
    let mut rest = gates;
    let mut out: Vec<Gate> = Vec::new();
    while rest.len() > 0
        invariant
            rest@.len() <= all.len(),
            all == orig,
            orig == gates@,
            rest@ == all.subrange(0, rest@.len() as int),
            reversed_list(views(all)) == views(out@) + reversed_list(views(rest@)),
        decreases rest.len(),
    {
        let ghost before = rest@;
        let g = rest.pop().unwrap();
        proof {
            assert(g == before[rest@.len() as int]);
            assert(g == orig[rest@.len() as int]);
            assert(decreases_to!(orig => orig[rest@.len() as int]));
            assert(decreases_to!(orig => g));
            assert(rest@ == before.drop_last());
            assert(views(before) == views(before.drop_last()).push(before.last()@));
            assert(views(before).drop_last() =~= views(rest@));
        }
        let rg = g.into_reversed();
        let ghost prev_out = out@;
        out.push(rg);
        proof {
            assert(out@ == prev_out.push(rg));
            assert(out@.drop_last() == prev_out);
            assert(views(out@) == views(prev_out).push(rg@));
            assert(views(out@) + reversed_list(views(rest@)) =~= views(prev_out) + reversed_list(
                views(before),
            ));
        }
    }
    proof {
        assert(views(out@) + reversed_list(views(rest@)) =~= views(out@));
    }
    out
}

/// What a leaf gate does to each pair of amplitudes it visits.
#[derive(Debug, Clone, Copy, PartialEq, Eq, Structural)]
pub enum Action {
    /// `(a0, a1) -> ((a0 + a1) / sqrt 2, (a0 - a1) / sqrt 2)`.
    Hadamard,
    /// `(a0, a1) -> (a1, a0)`.
    Flip,
    /// `(a0, a1) -> (i * a1, -i * a0)`.
    PauliY,
    /// `a1 -> -a1`, with `a0` untouched.
    PauliZ,
    /// `a1 -> a1 * exp(2 pi i * turns / 2^log2_den)`, with `a0` untouched.
    Phase(u64, u32),
}

/// One leaf of a gate tree, ready to run on an amplitude vector: the
/// `action` applies to each pair `(i1 - 2^target, i1)` where `i1` runs over
/// the indices that have every bit of `mask` set. The mask holds the target
/// bit, the controls of the leaf and the controls of every enclosing
/// controlled circuit.
#[derive(Debug, Clone, Copy, PartialEq, Eq, Structural)]
pub struct Step {
    pub action: Action,
    pub target: usize,
    pub mask: u64,
}

/// The qubits that a leaf gate claims: its controls, then its target.
pub open spec fn leaf_claims(op: Op) -> Seq<usize> {
    match op {
        Op::H(t) => seq![t],
        Op::X(t) => seq![t],
        Op::Y(t) => seq![t],
        Op::Z(t) => seq![t],
        Op::R(t, _, _) => seq![t],
        Op::CX(c, t) => seq![c, t],
        Op::CCX(c1, c2, t) => seq![c1, c2, t],
        Op::CNX(cs, t) => cs.push(t),
        _ => seq![],
    }
}

/// What a leaf gate does to the pairs it visits.
pub open spec fn leaf_action(op: Op) -> Action {
    match op {
        Op::H(_) => Action::Hadamard,
        Op::Y(_) => Action::PauliY,
        Op::Z(_) => Action::PauliZ,
        Op::R(_, k, d) => Action::Phase(k, d),
        _ => Action::Flip,
    }
}

/// The qubit a leaf gate acts on.
pub open spec fn leaf_target(op: Op) -> usize {
    match op {
        Op::H(t) => t,
        Op::X(t) => t,
        Op::Y(t) => t,
        Op::Z(t) => t,
        Op::R(t, _, _) => t,
        Op::CX(_, t) => t,
        Op::CCX(_, _, t) => t,
        Op::CNX(_, t) => t,
        _ => 0,
    }
}

/// Claims the qubits `qs` one after another on top of `mask`, in an
/// `n`-qubit register: it fails on a qubit outside the register, or on one
/// whose bit is claimed already.
pub open spec fn claim(mask: u64, qs: Seq<usize>, n: usize) -> Result<u64, QitError>
    decreases qs.len(),
{
    if qs.len() == 0 {
        Ok(mask)
    } else {
        match claim(mask, qs.drop_last(), n) {
            Ok(m) => {
                let q = qs.last();
                if q >= n {
                    Err(QitError::QubitOutOfRange)
                } else if m & (1u64 << q) != 0 {
                    Err(QitError::MaskOverlap)
                } else {
                    Ok(m | (1u64 << q))
                }
            },
            Err(e) => Err(e),
        }
    }
}

/// The leaf steps of `op`, in the order they act, under the qubits `mask`
/// claimed by enclosing controls; or the first failure.
pub open spec fn schedule(op: Op, mask: u64, n: usize) -> Result<Seq<Step>, QitError>
    decreases op,
{
    match op {
        Op::U(gs) => schedule_list(gs, mask, n),
        Op::CU(c, gs) => match claim(mask, seq![c], n) {
            Ok(m) => schedule_list(gs, m, n),
            Err(e) => Err(e),
        },
        _ => match claim(mask, leaf_claims(op), n) {
            Ok(m) => Ok(seq![Step { action: leaf_action(op), target: leaf_target(op), mask: m }]),
            Err(e) => Err(e),
        },
    }
}

/// The steps of each gate of a list, one list after another.
pub open spec fn schedule_list(gs: Seq<Op>, mask: u64, n: usize) -> Result<Seq<Step>, QitError>
    decreases gs,
{
    if gs.len() == 0 {
        Ok(seq![])
    } else {
        match schedule_list(gs.drop_last(), mask, n) {
            Ok(s) => match schedule(gs.last(), mask, n) {
                Ok(t) => Ok(s + t),
                Err(e) => Err(e),
            },
            Err(e) => Err(e),
        }
    }
}

proof fn lemma_schedule_list_err(gs: Seq<Op>, k: int, mask: u64, n: usize)
    requires
        0 <= k <= gs.len(),
        schedule_list(gs.subrange(0, k), mask, n) is Err,
    ensures
        schedule_list(gs, mask, n) == schedule_list(gs.subrange(0, k), mask, n),
    decreases gs.len() - k,
{
    if k < gs.len() {
        let s = gs.subrange(0, k + 1);
        assert(s.drop_last() =~= gs.subrange(0, k));
        lemma_schedule_list_err(gs, k + 1, mask, n);
    } else {
        assert(gs.subrange(0, k) =~= gs);
    }
}

proof fn lemma_claim_push(mask: u64, qs: Seq<usize>, q: usize, n: usize)
    ensures
        claim(mask, qs.push(q), n) == match claim(mask, qs, n) {
            Ok(m) => claim(m, seq![q], n),
            Err(e) => Err(e),
        },
{
    assert(qs.push(q).drop_last() =~= qs);
    assert(seq![q].drop_last() =~= Seq::<usize>::empty());
    if let Ok(m) = claim(mask, qs, n) {
        assert(claim(m, Seq::<usize>::empty(), n) == Ok::<u64, QitError>(m));
    }
}

/// Claims `q` on top of the walker's mask.
fn claim_one(walker: &BitSlideIndex, q: usize, n: usize) -> (r: Result<BitSlideIndex, QitError>)
    requires
        n <= 64,
    ensures
        match claim(walker.mask, seq![q], n) {
            Ok(m) => r matches Ok(w) && w.mask == m && w.to == walker.to && w.wf(),
            Err(e) => r == Err::<BitSlideIndex, QitError>(e),
        },
{
    proof {
        assert(seq![q].drop_last() =~= Seq::<usize>::empty());
        assert(claim(walker.mask, Seq::<usize>::empty(), n) == Ok::<u64, QitError>(walker.mask));
    }
    if q >= n {
        return Err(QitError::QubitOutOfRange);
    }
    walker.merge(1u64 << q)
}

/// Claims each of `qs`, then `last`, on top of the walker's mask.
fn claim_all(walker: &BitSlideIndex, qs: &[usize], last: usize, n: usize) -> (r: Result<
    BitSlideIndex,
    QitError,
>)
    requires
        n <= 64,
    ensures
        match claim(walker.mask, qs@.push(last), n) {
            Ok(m) => r matches Ok(w) && w.mask == m && w.to == walker.to && w.wf(),
            Err(e) => r == Err::<BitSlideIndex, QitError>(e),
        },
{
    let mut w = BitSlideIndex::new(walker.to, walker.mask);
    let mut i: usize = 0;
    while i < qs.len()
        invariant
            n <= 64,
            i <= qs@.len(),
            claim(walker.mask, qs@.subrange(0, i as int), n) == Ok::<u64, QitError>(w.mask),
            w.to == walker.to,
            w.wf(),
        decreases qs.len() - i,
    {
        let q = qs[i];
        proof {
            assert(qs@.subrange(0, i as int).push(q) =~= qs@.subrange(0, i + 1));
            lemma_claim_push(walker.mask, qs@.subrange(0, i as int), q, n);
        }
        match claim_one(&w, q, n) {
            Ok(w2) => {
                w = w2;
            },
            Err(e) => {
                proof {
                    assert(qs@.push(last).subrange(0, i + 1) =~= qs@.subrange(0, i + 1));
                    lemma_claim_err(walker.mask, qs@.push(last), i + 1, n);
                    lemma_claim_push(walker.mask, qs@, last, n);
                }
                return Err(e);
            },
        }
        i = i + 1;
    }
    proof {
        assert(qs@.subrange(0, i as int) =~= qs@);
        lemma_claim_push(walker.mask, qs@, last, n);
    }
    claim_one(&w, last, n)
}

proof fn lemma_claim_err(mask: u64, qs: Seq<usize>, k: int, n: usize)
    requires
        0 <= k <= qs.len(),
        claim(mask, qs.subrange(0, k), n) is Err,
    ensures
        claim(mask, qs, n) == claim(mask, qs.subrange(0, k), n),
    decreases qs.len() - k,
{
    if k < qs.len() {
        assert(qs.subrange(0, k + 1).drop_last() =~= qs.subrange(0, k));
        lemma_claim_err(mask, qs, k + 1, n);
    } else {
        assert(qs.subrange(0, k) =~= qs);
    }
}

impl Gate {
    /// The leaf steps of this gate on an `n`-qubit register, in the order
    /// they act; it fails when a qubit lies outside the register or when two
    /// claims on one qubit meet in one branch of the tree (a control that is
    /// also the target, or a controlled circuit whose control is used inside).
    pub fn steps(&self, n: usize) -> (r: Result<Vec<Step>, QitError>)
        ensures
            n > 63 ==> r == Err::<Vec<Step>, QitError>(QitError::RegisterTooLarge),
            n <= 63 ==> match schedule(self@, 0, n) {
                Ok(s) => r matches Ok(v) && v@ == s,
                Err(e) => r == Err::<Vec<Step>, QitError>(e),
            },
    {
        if n > 63 {
            return Err(QitError::RegisterTooLarge);
        }
        let walker = BitSlideIndex::new(1u64 << n, 0);
        let mut out: Vec<Step> = Vec::new();
        match self.steps_within(&walker, n, &mut out) {
            Ok(()) => {
                proof {
                    assert(out@ =~= Seq::<Step>::empty() + out@);
                }
                Ok(out)
            },
            Err(e) => Err(e),
        }
    }

    /// Appends the leaf steps of this gate to `out`, under the qubits that
    /// the walker has claimed already.
    pub fn steps_within(&self, walker: &BitSlideIndex, n: usize, out: &mut Vec<Step>) -> (r: Result<
        (),
        QitError,
    >)
        requires
            n <= 64,
        ensures
            match schedule(self@, walker.mask, n) {
                Ok(s) => r is Ok && final(out)@ == old(out)@ + s,
                Err(e) => r == Err::<(), QitError>(e),
            },
        decreases self,
    {
        match self {
            Gate::U(u) => steps_of_list(&u.gates, walker, n, out),
            Gate::CU(cu) => {
                let inner = claim_one(walker, cu.control_bit, n);
                match inner {
                    Ok(w) => steps_of_list(&cu.gates, &w, n, out),
                    Err(e) => Err(e),
                }
            },
            _ => {
                let (qs, t, action): (Vec<usize>, usize, Action) = match self {
                    Gate::H(g) => (Vec::new(), g.target_bit, Action::Hadamard),
                    Gate::X(g) => (Vec::new(), g.target_bit, Action::Flip),
                    Gate::Y(g) => (Vec::new(), g.target_bit, Action::PauliY),
                    Gate::Z(g) => (Vec::new(), g.target_bit, Action::PauliZ),
                    Gate::R(g) => (Vec::new(), g.target_bit, Action::Phase(g.turns, g.log2_den)),
                    Gate::CX(g) => (vec![g.control_bit], g.target_bit, Action::Flip),
                    Gate::CCX(g) => (
                        vec![g.control_bit1, g.control_bit2],
                        g.target_bit,
                        Action::Flip,
                    ),
                    Gate::CNX(g) => (copy_qubits(&g.control_bits), g.target_bit, Action::Flip),
                    _ => (Vec::new(), 0, Action::Flip),
                };
                proof {
                    assert(qs@.push(t) =~= leaf_claims(self@));
                }
                match claim_all(walker, qs.as_slice(), t, n) {
                    Ok(w) => {
                        out.push(Step { action, target: t, mask: w.mask });
                        Ok(())
                    },
                    Err(e) => Err(e),
                }
            },
        }
    }
}

/// A copy of a list of qubit indices.
fn copy_qubits(qs: &Vec<usize>) -> (r: Vec<usize>)
    ensures
        r@ == qs@,
{
    let mut r: Vec<usize> = Vec::new();
    let mut i: usize = 0;
    while i < qs.len()
        invariant
            i <= qs@.len(),
            r@ == qs@.subrange(0, i as int),
        decreases qs.len() - i,
    {
        r.push(qs[i]);
        i = i + 1;
        proof {
            assert(r@ =~= qs@.subrange(0, i as int));
        }
    }
    proof {
        assert(qs@.subrange(0, i as int) =~= qs@);
    }
    r
}

/// Appends the leaf steps of each gate of `gates` to `out`, in order.
fn steps_of_list(gates: &Vec<Gate>, walker: &BitSlideIndex, n: usize, out: &mut Vec<Step>) -> (r:
    Result<(), QitError>)
    requires
        n <= 64,
    ensures
        match schedule_list(views(gates@), walker.mask, n) {
            Ok(s) => r is Ok && final(out)@ == old(out)@ + s,
            Err(e) => r == Err::<(), QitError>(e),
        },
    decreases gates@,
{
    broadcast use lemma_views;
    broadcast use vstd::seq::axiom_seq_index_decreases;

    let ghost vs = views(gates@);
    let mut i: usize = 0;
    proof {
        assert(vs.subrange(0, 0) =~= Seq::<Op>::empty());
        assert(old(out)@ + Seq::<Step>::empty() =~= old(out)@);
    }
    while i < gates.len()
        invariant
            n <= 64,
            vs == views(gates@),
            vs.len() == gates@.len(),
            i <= gates@.len(),
            schedule_list(vs.subrange(0, i as int), walker.mask, n) matches Ok(s) && out@ == old(
                out,
            )@ + s,
        decreases gates.len() - i,
    {
        proof {
            assert(decreases_to!(gates@ => gates@[i as int]));
            assert(vs.subrange(0, i + 1).drop_last() =~= vs.subrange(0, i as int));
            lemma_views(gates@);
            assert(vs[i as int] == gates@[i as int]@);
            assert(vs.subrange(0, i + 1).last() == gates@[i as int]@);
        }
        match gates[i].steps_within(walker, n, out) {
            Ok(()) => {
                proof {
                    let s = schedule_list(vs.subrange(0, i as int), walker.mask, n)->Ok_0;
                    let t = schedule(gates@[i as int]@, walker.mask, n)->Ok_0;
                    assert(out@ =~= old(out)@ + (s + t));
                }
            },
            Err(e) => {
                proof {
                    lemma_schedule_list_err(vs, i + 1, walker.mask, n);
                }
                return Err(e);
            },
        }
        i = i + 1;
    }
    proof {
        assert(vs.subrange(0, i as int) =~= vs);
    }
    Ok(())
}

/// Whether qubit `q` is 1 in the basis string `k`.
pub open spec fn bit(k: u64, q: usize) -> bool {
    (k >> (q as u64)) & 1 == 1
}

/// The basis string `k` with qubit `t` inverted.
pub open spec fn flip(k: u64, t: usize) -> u64 {
    k ^ (1u64 << (t as u64))
}

/// Whether every qubit of `cs` is 1 in `k`.
pub open spec fn controls_set(k: u64, cs: Seq<usize>) -> bool {
    forall|i: int| 0 <= i < cs.len() ==> bit(k, #[trigger] cs[i])
}

/// Whether every qubit of `qs` lies below 64.
pub open spec fn qubits_in_range(qs: Seq<usize>) -> bool {
    forall|i: int| 0 <= i < qs.len() ==> #[trigger] qs[i] < 64
}

/// The basis string that `op` sends `k` to, up to a phase, for gates that
/// permute basis strings (every gate but the Hadamard): a NOT inverts its
/// target where all its controls are 1, Y inverts its target, Z and R keep
/// the string, and a controlled circuit acts where its control is 1.
pub open spec fn image(op: Op, k: u64) -> Result<u64, QitError>
    decreases op,
{
    match op {
        Op::H(_) => Err(QitError::NotClassical),
        Op::U(gs) => image_list(gs, k),
        Op::CU(c, gs) => if c >= 64 {
            Err(QitError::QubitOutOfRange)
        } else if bit(k, c) {
            image_list(gs, k)
        } else {
            Ok(k)
        },
        _ => if !qubits_in_range(leaf_claims(op)) {
            Err(QitError::QubitOutOfRange)
        } else {
            match op {
                Op::Z(_) => Ok(k),
                Op::R(_, _, _) => Ok(k),
                _ => if controls_set(k, leaf_claims(op).drop_last()) {
                    Ok(flip(k, leaf_target(op)))
                } else {
                    Ok(k)
                },
            }
        },
    }
}

/// The image of `k` under each gate of `gs` in turn.
pub open spec fn image_list(gs: Seq<Op>, k: u64) -> Result<u64, QitError>
    decreases gs,
{
    if gs.len() == 0 {
        Ok(k)
    } else {
        match image_list(gs.drop_last(), k) {
            Ok(k1) => image(gs.last(), k1),
            Err(e) => Err(e),
        }
    }
}

proof fn lemma_image_list_err(gs: Seq<Op>, i: int, k: u64)
    requires
        0 <= i <= gs.len(),
        image_list(gs.subrange(0, i), k) is Err,
    ensures
        image_list(gs, k) == image_list(gs.subrange(0, i), k),
    decreases gs.len() - i,
{
    if i < gs.len() {
        assert(gs.subrange(0, i + 1).drop_last() =~= gs.subrange(0, i));
        lemma_image_list_err(gs, i + 1, k);
    } else {
        assert(gs.subrange(0, i) =~= gs);
    }
}

/// Whether every control of `cs` is 1 in `k`; `None` when one lies beyond 63.
fn controls_hold(k: u64, cs: &[usize]) -> (r: Option<bool>)
    ensures
        qubits_in_range(cs@) ==> r == Some(controls_set(k, cs@)),
        !qubits_in_range(cs@) ==> r is None,
{
    let mut all = true;
    let mut i: usize = 0;
    while i < cs.len()
        invariant
            i <= cs@.len(),
            qubits_in_range(cs@.subrange(0, i as int)),
            all == controls_set(k, cs@.subrange(0, i as int)),
        decreases cs.len() - i,
    {
        if cs[i] >= 64 {
            return None;
        }
        if (k >> (cs[i] as u64)) & 1 != 1 {
            all = false;
        }
        proof {
            let s = cs@.subrange(0, i + 1);
            assert forall|j: int| 0 <= j < s.len() implies #[trigger] s[j] < 64 by {
                if j < i {
                    assert(s[j] == cs@.subrange(0, i as int)[j]);
                }
            }
            assert(controls_set(k, s) == (controls_set(k, cs@.subrange(0, i as int)) && bit(
                k,
                cs@[i as int],
            ))) by {
                if controls_set(k, s) {
                    assert forall|j: int| 0 <= j < i implies bit(
                        k,
                        #[trigger] cs@.subrange(0, i as int)[j],
                    ) by {
                        assert(s[j] == cs@.subrange(0, i as int)[j]);
                    }
                    assert(s[i as int] == cs@[i as int]);
                }
            }
        }
        i = i + 1;
    }
    proof {
        assert(cs@.subrange(0, i as int) =~= cs@);
    }
    Some(all)
}

impl Gate {
    /// The basis string that this gate sends the basis string `k` to (up to
    /// a phase); it fails on a Hadamard that it reaches, and on a qubit
    /// beyond 63.
    pub fn basis_image(&self, k: u64) -> (r: Result<u64, QitError>)
        ensures
            r == image(self@, k),
        decreases self,
    {
        match self {
            Gate::H(_) => Err(QitError::NotClassical),
            Gate::U(u) => basis_image_of_list(&u.gates, k),
            Gate::CU(cu) => {
                if cu.control_bit >= 64 {
                    Err(QitError::QubitOutOfRange)
                } else if (k >> (cu.control_bit as u64)) & 1 == 1 {
                    basis_image_of_list(&cu.gates, k)
                } else {
                    Ok(k)
                }
            },
            _ => {
                let (qs, t, moves): (Vec<usize>, usize, bool) = match self {
                    Gate::X(g) => (Vec::new(), g.target_bit, true),
                    Gate::Y(g) => (Vec::new(), g.target_bit, true),
                    Gate::Z(g) => (Vec::new(), g.target_bit, false),
                    Gate::R(g) => (Vec::new(), g.target_bit, false),
                    Gate::CX(g) => (vec![g.control_bit], g.target_bit, true),
                    Gate::CCX(g) => (vec![g.control_bit1, g.control_bit2], g.target_bit, true),
                    Gate::CNX(g) => (copy_qubits(&g.control_bits), g.target_bit, true),
                    _ => (Vec::new(), 0, false),
                };
                proof {
                    assert(qs@.push(t) =~= leaf_claims(self@));
                    assert(leaf_claims(self@).drop_last() =~= qs@);
                    assert(qubits_in_range(qs@.push(t)) == (qubits_in_range(qs@) && t < 64)) by {
                        if qubits_in_range(qs@) && t < 64 {
                            assert forall|i: int| 0 <= i < qs@.push(t).len() implies #[trigger] qs@.push(t)[i] < 64 by {
                                if i < qs@.len() {
                                    assert(qs@.push(t)[i] == qs@[i]);
                                }
                            }
                        }
                        if qubits_in_range(qs@.push(t)) {
                            assert(qs@.push(t)[qs@.len() as int] == t);
                            assert forall|i: int| 0 <= i < qs@.len() implies #[trigger] qs@[i] < 64 by {
                                assert(qs@.push(t)[i] == qs@[i]);
                            }
                        }
                    }
                }
                match controls_hold(k, qs.as_slice()) {
                    None => Err(QitError::QubitOutOfRange),
                    Some(on) => {
                        if t >= 64 {
                            Err(QitError::QubitOutOfRange)
                        } else if moves && on {
                            Ok(k ^ (1u64 << (t as u64)))
                        } else {
                            Ok(k)
                        }
                    },
                }
            },
        }
    }
}

/// The image of `k` under each gate of `gates` in turn.
fn basis_image_of_list(gates: &Vec<Gate>, k: u64) -> (r: Result<u64, QitError>)
    ensures
        r == image_list(views(gates@), k),
    decreases gates@,
{
    broadcast use vstd::seq::axiom_seq_index_decreases;

    let ghost vs = views(gates@);
    proof {
        lemma_views(gates@);
        assert(vs.subrange(0, 0) =~= Seq::<Op>::empty());
    }
    let mut cur = k;
    let mut i: usize = 0;
    while i < gates.len()
        invariant
            vs == views(gates@),
            vs.len() == gates@.len(),
            forall|j: int| 0 <= j < gates@.len() ==> vs[j] == #[trigger] gates@[j]@,
            i <= gates@.len(),
            image_list(vs.subrange(0, i as int), k) == Ok::<u64, QitError>(cur),
        decreases gates.len() - i,
    {
        proof {
            assert(decreases_to!(gates@ => gates@[i as int]));
            assert(vs.subrange(0, i + 1).drop_last() =~= vs.subrange(0, i as int));
            assert(vs.subrange(0, i + 1).last() == gates@[i as int]@);
        }
        match gates[i].basis_image(cur) {
            Ok(next) => {
                cur = next;
            },
            Err(e) => {
                proof {
                    lemma_image_list_err(vs, i + 1, k);
                }
                return Err(e);
            },
        }
        i = i + 1;
    }
    proof {
        assert(vs.subrange(0, i as int) =~= vs);
    }
    Ok(cur)
}

/// Inverting a NOT twice restores every basis string: `X` twice is the
/// identity.
pub proof fn lemma_x_twice(q: usize, k: u64)
    requires
        q < 64,
    ensures
        image(Op::X(q), k) matches Ok(k1) && image(Op::X(q), k1) == Ok::<u64, QitError>(k),
{
    assert(seq![q].drop_last() =~= Seq::<usize>::empty());
    let m = 1u64 << (q as u64);
    assert((k ^ m) ^ m == k) by (bit_vector);
}

proof fn lemma_claim_twice(c: usize, n: usize)
    requires
        c < n <= 64,
    ensures
        claim(0, seq![c], n) == Ok::<u64, QitError>(1u64 << (c as u64)),
        claim(1u64 << (c as u64), seq![c], n) == Err::<u64, QitError>(QitError::MaskOverlap),
        claim(0, seq![c, c], n) == Err::<u64, QitError>(QitError::MaskOverlap),
{
    let m = 1u64 << (c as u64);
    assert(seq![c].drop_last() =~= Seq::<usize>::empty());
    assert(seq![c, c].drop_last() =~= seq![c]);
    assert(claim(0, Seq::<usize>::empty(), n) == Ok::<u64, QitError>(0));
    assert(claim(m, Seq::<usize>::empty(), n) == Ok::<u64, QitError>(m));
    assert(0u64 & m == 0) by (bit_vector);
    assert(0u64 | m == m) by (bit_vector);
    assert(c < 64 ==> m & (1u64 << (c as u64)) != 0) by (bit_vector)
        requires
            m == 1u64 << (c as u64),
    ;
}

/// A controlled NOT whose control is also its target claims one qubit twice,
/// and so fails to apply, whatever the register.
pub proof fn lemma_control_is_target(c: usize, n: usize)
    requires
        c < n <= 64,
    ensures
        schedule(Op::CX(c, c), 0, n) == Err::<Seq<Step>, QitError>(QitError::MaskOverlap),
{
    lemma_claim_twice(c, n);
    assert(leaf_claims(Op::CX(c, c)) =~= seq![c, c]);
}

/// A controlled circuit that uses its own control inside claims that qubit
/// twice, and so fails to apply.
pub proof fn lemma_control_reused(c: usize, t: usize, n: usize)
    requires
        c < n <= 64,
        t < n,
    ensures
        schedule(Op::CU(c, seq![Op::CX(c, t)]), 0, n) == Err::<Seq<Step>, QitError>(
            QitError::MaskOverlap,
        ),
{
    lemma_claim_twice(c, n);
    let m = 1u64 << (c as u64);
    let qs = seq![c, t];
    assert(qs.drop_last() =~= seq![c]);
    assert(leaf_claims(Op::CX(c, t)) =~= qs);
    assert(claim(m, qs, n) == Err::<u64, QitError>(QitError::MaskOverlap));
    let gs = seq![Op::CX(c, t)];
    assert(gs.drop_last() =~= Seq::<Op>::empty());
    assert(schedule_list(Seq::<Op>::empty(), m, n) == Ok::<Seq<Step>, QitError>(seq![]));
    assert(schedule(Op::CX(c, t), m, n) == Err::<Seq<Step>, QitError>(QitError::MaskOverlap));
    assert(schedule_list(gs, m, n) == Err::<Seq<Step>, QitError>(QitError::MaskOverlap));
}

/// The image under a list is the image under its last gate of the image
/// under the rest: one step of the fold, on a prefix.
pub proof fn lemma_image_prefix(gs: Seq<Op>, i: int, k: u64)
    requires
        0 <= i < gs.len(),
    ensures
        image_list(gs.subrange(0, i + 1), k) == match image_list(gs.subrange(0, i), k) {
            Ok(k1) => image(gs[i], k1),
            Err(e) => Err(e),
        },
{
    assert(gs.subrange(0, i + 1).drop_last() =~= gs.subrange(0, i));
}

/// The image of a controlled NOT on a basis string.
pub proof fn lemma_image_cx(c: usize, t: usize, k: u64)
    requires
        c < 64,
        t < 64,
    ensures
        image(Op::CX(c, t), k) == Ok::<u64, QitError>(
            if bit(k, c) {
                flip(k, t)
            } else {
                k
            },
        ),
{
    let qs = seq![c, t];
    assert(leaf_claims(Op::CX(c, t)) == qs);
    assert(qs.drop_last() =~= seq![c]);
    assert(qubits_in_range(qs));
    assert(controls_set(k, seq![c]) == bit(k, c)) by {
        if bit(k, c) {
            assert forall|i: int| 0 <= i < 1 implies bit(k, #[trigger] seq![c][i]) by {}
        }
        assert(seq![c][0] == c);
    }
}

/// The image of a doubly controlled NOT on a basis string.
pub proof fn lemma_image_ccx(c1: usize, c2: usize, t: usize, k: u64)
    requires
        c1 < 64,
        c2 < 64,
        t < 64,
    ensures
        image(Op::CCX(c1, c2, t), k) == Ok::<u64, QitError>(
            if bit(k, c1) && bit(k, c2) {
                flip(k, t)
            } else {
                k
            },
        ),
{
    let qs = seq![c1, c2, t];
    assert(leaf_claims(Op::CCX(c1, c2, t)) == qs);
    assert(qs.drop_last() =~= seq![c1, c2]);
    assert(qubits_in_range(qs));
    let cs = seq![c1, c2];
    assert(controls_set(k, cs) == (bit(k, c1) && bit(k, c2))) by {
        if bit(k, c1) && bit(k, c2) {
            assert forall|i: int| 0 <= i < 2 implies bit(k, #[trigger] cs[i]) by {}
        }
        assert(cs[0] == c1);
        assert(cs[1] == c2);
    }
}

/// The image of a NOT on a basis string.
pub proof fn lemma_image_x(t: usize, k: u64)
    requires
        t < 64,
    ensures
        image(Op::X(t), k) == Ok::<u64, QitError>(flip(k, t)),
{
    let qs = seq![t];
    assert(leaf_claims(Op::X(t)) == qs);
    assert(qs.drop_last() =~= Seq::<usize>::empty());
    assert(qubits_in_range(qs));
}

/// A controlled NOT on a basis string, as bits.
pub open spec fn cx_bits(k: u64, c: u64, t: u64) -> u64 {
    if (k >> c) & 1 == 1 {
        k ^ (1u64 << t)
    } else {
        k
    }
}

/// A doubly controlled NOT on a basis string, as bits.
pub open spec fn ccx_bits(k: u64, c1: u64, c2: u64, t: u64) -> u64 {
    if (k >> c1) & 1 == 1 && (k >> c2) & 1 == 1 {
        k ^ (1u64 << t)
    } else {
        k
    }
}

/// One controlled NOT further along a list of gates, on basis strings.
pub proof fn lemma_cx_step(gs: Seq<Op>, i: int, k0: u64, k: u64, c: usize, t: usize)
    requires
        0 <= i < gs.len(),
        gs[i] == Op::CX(c, t),
        c < 64,
        t < 64,
        image_list(gs.subrange(0, i), k0) == Ok::<u64, QitError>(k),
    ensures
        image_list(gs.subrange(0, i + 1), k0) == Ok::<u64, QitError>(cx_bits(k, c as u64, t as u64)),
{
    lemma_image_prefix(gs, i, k0);
    lemma_image_cx(c, t, k);
}

/// One doubly controlled NOT further along a list of gates, on basis strings.
pub proof fn lemma_ccx_step(gs: Seq<Op>, i: int, k0: u64, k: u64, c1: usize, c2: usize, t: usize)
    requires
        0 <= i < gs.len(),
        gs[i] == Op::CCX(c1, c2, t),
        c1 < 64,
        c2 < 64,
        t < 64,
        image_list(gs.subrange(0, i), k0) == Ok::<u64, QitError>(k),
    ensures
        image_list(gs.subrange(0, i + 1), k0) == Ok::<u64, QitError>(
            ccx_bits(k, c1 as u64, c2 as u64, t as u64),
        ),
{
    lemma_image_prefix(gs, i, k0);
    lemma_image_ccx(c1, c2, t, k);
}

/// A NOT on a basis string, as bits.
pub open spec fn x_bits(k: u64, t: u64) -> u64 {
    k ^ (1u64 << t)
}

/// One NOT further along a list of gates, on basis strings.
pub proof fn lemma_x_step(gs: Seq<Op>, i: int, k0: u64, k: u64, t: usize)
    requires
        0 <= i < gs.len(),
        gs[i] == Op::X(t),
        t < 64,
        image_list(gs.subrange(0, i), k0) == Ok::<u64, QitError>(k),
    ensures
        image_list(gs.subrange(0, i + 1), k0) == Ok::<u64, QitError>(x_bits(k, t as u64)),
{
    lemma_image_prefix(gs, i, k0);
    lemma_image_x(t, k);
}

/// Inverting qubit `t` changes that qubit and no other.
pub proof fn lemma_flip_bit(k: u64, t: usize, p: usize)
    requires
        t < 64,
        p < 64,
    ensures
        bit(flip(k, t), p) == if p == t {
            !bit(k, p)
        } else {
            bit(k, p)
        },
{
    let tt = t as u64;
    let pp = p as u64;
    assert((((k ^ (1u64 << tt)) >> pp) & 1 == 1) == if pp == tt {
        !((k >> pp) & 1 == 1)
    } else {
        (k >> pp) & 1 == 1
    }) by (bit_vector)
        requires
            tt < 64,
            pp < 64,
    ;
}

} // verus!
