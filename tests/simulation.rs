use qit::circuits::{
    add_const, add_const_2_power, cmm_const, full_adder_nbits, half_adder_bit, inv_qft, me_const,
    mod_add, mod_add_const, overflow_qadd_const, qft, sub_const, substract_nbits, swap,
    wrapping_qadd_const,
};
use qit::gates::{Action, Gate, CCX, CU, CX, H, R, U, X, Z};
use qit::mod_funcs::{is_coprime, mod_power};
use qit::walker::BitSlideIndex;

type Amp = (f64, f64);

fn basis(size: usize, number: usize) -> Vec<Amp> {
    let mut bits = vec![(0.0, 0.0); 1 << size];
    bits[number] = (1.0, 0.0);
    bits
}

fn zero() -> Vec<Amp> {
    basis(2, 0)
}

fn mul(a: Amp, b: Amp) -> Amp {
    (a.0 * b.0 - a.1 * b.1, a.0 * b.1 + a.1 * b.0)
}

/// Runs the leaf steps of `gate` on the amplitudes of an `n`-qubit register.
fn apply(gate: &Gate, n: usize, mut bits: Vec<Amp>) -> Vec<Amp> {
    let steps = gate.steps(n).unwrap();
    let half = std::f64::consts::FRAC_1_SQRT_2;
    for st in steps {
        let step = 1usize << st.target;
        let mut walker = BitSlideIndex::new(1u64 << n, st.mask);
        while let Some(i1) = walker.next() {
            let i1 = i1 as usize;
            let i0 = i1 - step;
            let (a0, a1) = (bits[i0], bits[i1]);
            match st.action {
                Action::Hadamard => {
                    bits[i0] = ((a1.0 + a0.0) * half, (a1.1 + a0.1) * half);
                    bits[i1] = ((a0.0 - a1.0) * half, (a0.1 - a1.1) * half);
                }
                Action::Flip => {
                    bits[i0] = a1;
                    bits[i1] = a0;
                }
                Action::PauliY => {
                    bits[i0] = mul((0.0, 1.0), a1);
                    bits[i1] = mul((0.0, -1.0), a0);
                }
                Action::PauliZ => {
                    bits[i1] = (-a1.0, -a1.1);
                }
                Action::Phase(turns, log2_den) => {
                    let angle = 2.0 * std::f64::consts::PI * (turns as f64)
                        / 2f64.powi(log2_den as i32);
                    bits[i1] = mul(a1, (angle.cos(), angle.sin()));
                }
            }
        }
    }
    bits
}

fn probs(bits: &[Amp]) -> Vec<f64> {
    bits.iter().map(|a| a.0 * a.0 + a.1 * a.1).collect()
}

fn most_plausible(bits: &[Amp]) -> usize {
    let mut max_prob = 0.0;
    let mut max_idx = 0;
    for (i, p) in probs(bits).into_iter().enumerate() {
        if max_prob < p {
            max_prob = p;
            max_idx = i;
        }
    }
    max_idx
}

fn isequal_f64(a: f64, b: f64) -> bool {
    (a - b).abs() < 1e-9
}

fn isequal_probs(a: Vec<f64>, b: Vec<f64>) -> bool {
    assert_eq!(a.len(), b.len(), "size not match");
    for i in 0..a.len() {
        assert!(isequal_f64(a[i], b[i]), "a[{}] and b[{}] is not same", i, i);
    }
    true
}

fn isequal_qubits(a: &[Amp], b: &[Amp]) -> bool {
    assert_eq!(a.len(), b.len());
    for i in 0..a.len() {
        assert!(
            isequal_f64(a[i].0, b[i].0) && isequal_f64(a[i].1, b[i].1),
            "a[{}]={:?} and b[{}]={:?} is not equal",
            i,
            a[i],
            i,
            b[i]
        );
    }
    true
}

fn circuit(u: U) -> Gate {
    Gate::U(u)
}

/// The basis string that a permutation circuit sends `k` to.
fn image(g: &Gate, k: usize) -> usize {
    g.basis_image(k as u64).unwrap() as usize
}

#[test]
fn test_qubits() {}

#[test]
fn test_hadamard() {
    let h0 = Gate::H(H::new(0));
    let h1 = Gate::H(H::new(1));
    let q = apply(&h1, 2, apply(&h0, 2, zero()));
    assert!(isequal_probs(probs(&q), vec![0.25, 0.25, 0.25, 0.25]));
    let q = apply(&h1, 2, apply(&h0, 2, q));
    assert!(isequal_probs(probs(&q), vec![1.0, 0.0, 0.0, 0.0]));
}

#[test]
fn test_r() {
    let r = Gate::R(R::new(0, 1, 1));
    let z = Gate::Z(Z::new(0));
    let q0 = apply(&r, 2, basis(2, 1));
    let q1 = apply(&z, 2, basis(2, 1));
    assert!(isequal_qubits(&q0, &q1));
}

#[test]
fn test_cx() {
    let cx = Gate::CX(CX::new(0, 4));
    let q = apply(&cx, 5, basis(5, 31));
    assert!(isequal_qubits(&q, &basis(5, 15)));
    assert_eq!(image(&cx, 31), 15);
}

#[test]
fn test_cu() {
    let cx = Gate::CX(CX::new(0, 1));
    let x = Gate::X(X::new(1));
    let cu = Gate::CU(CU::new(0, vec![x], String::from("test_cu")));
    for num in 0..4 {
        isequal_qubits(&apply(&cx, 2, basis(2, num)), &apply(&cu, 2, basis(2, num)));
    }
}

#[test]
fn test_ccx() {
    let ccx = Gate::CCX(CCX::new(1, 2, 0));
    let inpts = vec![(0, 0), (1, 1), (2, 2), (3, 3), (4, 4), (5, 5), (6, 7), (7, 6)];
    for (q, expected) in inpts {
        isequal_qubits(&apply(&ccx, 3, basis(3, q)), &basis(3, expected));
        assert_eq!(image(&ccx, q), expected);
    }
}

#[test]
fn test_half_adder() {
    let u = circuit(half_adder_bit(0, 1, 2, 3));
    for num in 0..4 {
        let q_out = apply(&u, 4, basis(4, num));
        let add = ((num >> 1) & 1) + ((num >> 0) & 1);
        let num = num | (add << 2);
        isequal_qubits(&q_out, &basis(4, num));
    }
}

#[test]
fn test_full_adder() {
    let u = circuit(full_adder_nbits(&vec![3, 4, 5], &vec![0, 1, 2], &vec![6, 7, 8]).unwrap());
    for num in 0..64 {
        let q_out = apply(&u, 9, basis(9, num));
        let add = (((num >> 3) & 7) + (num & 7)) & 7;
        let exp_num = (num & 0b111111000) | add;
        isequal_qubits(&q_out, &basis(9, exp_num));
        assert_eq!(image(&u, num), exp_num);
    }
}

#[test]
fn test_full_adder10() {
    let u = circuit(
        full_adder_nbits(&vec![5, 6, 7, 8, 9], &vec![0, 1, 2, 3, 4], &vec![10, 11, 12, 13, 14])
            .unwrap(),
    );
    for num in 0..1024 {
        let add = (((num >> 5) & 31) + (num & 31)) & 31;
        let expected_num = (num & 0b11111_1111100000) | add;
        let actual = image(&u, num);
        assert_eq!(actual, expected_num);
    }
    for num in [0, 31, 33, 1023] {
        let q_out = apply(&u, 15, basis(15, num));
        let add = (((num >> 5) & 31) + (num & 31)) & 31;
        let expected_num = (num & 0b11111_1111100000) | add;
        assert_eq!(most_plausible(&q_out), expected_num);
        isequal_qubits(&q_out, &basis(15, expected_num));
    }
}

#[test]
fn test_full_sub() {
    let u = circuit(substract_nbits(&vec![3, 4, 5], &vec![0, 1, 2], &vec![6, 7, 8]).unwrap());
    for num in 0..64 {
        let q_out = apply(&u, 9, basis(9, num));
        let a_in = (num >> 3) & 7;
        let b_in = num & 7;
        let out = most_plausible(&q_out);
        let a_out = (out >> 3) & 7;
        let b_out = out & 7;
        assert_eq!(a_in, a_out);
        assert_eq!(b_out, (b_in + 8 - a_in) & 7);
        assert_eq!(image(&u, num), out);
    }
}

#[test]
fn test_swap() {
    let u = circuit(swap(&vec![0, 1, 2], &vec![3, 4, 5]).unwrap());
    for num in 0..64 {
        let a_in = (num >> 3) & 7;
        let b_in = num & 7;
        let q_expected = basis(6, (b_in << 3) + a_in);
        let q_out = apply(&u, 6, basis(6, num));
        isequal_qubits(&q_out, &q_expected);
    }
}

#[test]
fn test_moduler_adder() {
    let u = circuit(
        mod_add(
            &vec![0, 1, 2, 3],
            &vec![4, 5, 6, 7],
            &vec![8, 9, 10, 11],
            &vec![12, 13, 14, 15],
            16,
            7,
        )
        .unwrap(),
    );
    for a in 0..7 {
        for b in 0..7 {
            let num_in = a | (b << 4) | (7 << 8);
            let b_out = (a + b) % 7;
            let num_out = a | (b_out << 4) | (7 << 8);
            assert_eq!(image(&u, num_in), num_out);
        }
    }
    let q_out = apply(&u, 17, basis(17, 5 | (4 << 4) | (7 << 8)));
    assert_eq!(most_plausible(&q_out), 5 | (2 << 4) | (7 << 8));
}

#[test]
fn test_add_const() {
    for a in 0..8 {
        let u = circuit(add_const(&vec![0, 1, 2, 3], a).unwrap());
        let u1 = circuit(wrapping_qadd_const(&vec![0, 1, 2, 3], a).unwrap());
        let u2 = circuit(overflow_qadd_const(&vec![0, 1, 2], 3, a).unwrap());
        for b in 0..8 {
            let b_out = a + b;
            let q_out = apply(&u, 4, basis(4, b));
            assert_eq!(most_plausible(&q_out), b_out);
            let q_out2 = apply(&u1, 4, basis(4, b));
            let q_out3 = apply(&u2, 4, basis(4, b));
            isequal_qubits(&q_out, &q_out2);
            isequal_qubits(&q_out, &q_out3);
        }
    }
}

#[test]
fn test_sub_const() {
    for a in 0..8 {
        let u = circuit(sub_const(&vec![0, 1, 2, 3], a).unwrap());
        for b in 0..8 {
            let q_out = apply(&u, 4, basis(4, b));
            let b_out = (b + (!a & 15) + 1) & 15;
            assert_eq!(most_plausible(&q_out), b_out);
        }
    }
}

#[test]
fn test_mod_add_const() {
    let n = 7;
    for a in 0..8 {
        let u = circuit(mod_add_const(&vec![0, 1, 2], 3, a, n).unwrap());
        for b in 0..6 {
            let q_out = apply(&u, 5, basis(5, b));
            let b_out = (a + b) % n;
            assert_eq!(most_plausible(&q_out), b_out);
        }
    }
}

#[test]
fn test_add_const_2_power() {
    for a in 0..4 {
        let u = circuit(add_const_2_power(&vec![0, 1, 2, 3, 4], a).unwrap());
        for b in 0..16 {
            let b_out = b + (1 << a);
            let q_out = apply(&u, 5, basis(5, b));
            assert_eq!(most_plausible(&q_out), b_out);
        }
    }
}

#[test]
fn test_cmm_const() {
    let n = 15;
    for a in 0..n {
        let u = circuit(cmm_const(&vec![0, 1, 2, 3], &vec![4, 5, 6, 7], 8, 9, a, n).unwrap());
        for b in 0..n {
            let actual = image(&u, b | 1 << 9);
            assert_eq!((a * b) % n, (actual >> 4) & 0b11111)
        }
    }
    let u = circuit(cmm_const(&vec![0, 1, 2, 3], &vec![4, 5, 6, 7], 8, 9, 7, n).unwrap());
    let q_out = apply(&u, 10, basis(10, 4 | 1 << 9));
    assert_eq!((most_plausible(&q_out) >> 4) & 0b11111, (7 * 4) % n);
}

#[test]
fn test_me_const() {
    let n = 15;
    for a in 2..n {
        if !is_coprime(a, n) {
            continue;
        }
        let u = circuit(
            me_const(&vec![0, 1, 2, 3], &vec![4, 5, 6, 7], &vec![8, 9, 10, 11], 12, a, n)
                .unwrap(),
        );
        for x in 1..8 {
            let actual = image(&u, x);
            let actual = (actual >> 4) & 0b1111;
            assert!(mod_power(a, x, n) == actual);
        }
    }
}

#[test]
fn test_qft() {
    let u = circuit(qft(&vec![0, 1, 2, 3]).unwrap());
    let q_out = apply(&u, 4, basis(4, 0));
    let expected = vec![(0.25, 0.0); 1 << 4];
    isequal_qubits(&q_out, &expected);
}

#[test]
fn test_iqft() {
    let u = circuit(qft(&vec![0, 1, 2, 3]).unwrap());
    let u2 = circuit(inv_qft(&vec![0, 1, 2, 3]).unwrap());
    let h0 = Gate::H(H::new(0));
    let q_in = apply(&h0, 4, basis(4, 2));
    let expected = apply(&h0, 4, basis(4, 2));
    let q_out = apply(&u, 4, q_in);
    let q_out = apply(&u2, 4, q_out);
    isequal_qubits(&expected, &q_out);
}

#[test]
fn test_phase_estimation() {
    let x = vec![0, 1, 2, 3];
    fn tar_u() -> Gate {
        let r = Gate::R(R::new(4, 1, 3));
        Gate::U(U::new(vec![r], String::from("u")))
    }
    let mut pe_gates: Vec<Gate> = Vec::new();
    for i in 0..x.len() {
        pe_gates.push(Gate::H(H::new(x[i])));
    }
    for i in 0..x.len() {
        let x_i = x[i];
        let mut u_i_gates: Vec<Gate> = Vec::new();
        for _ in 0..(1 << i) {
            u_i_gates.push(tar_u());
        }
        pe_gates.push(Gate::CU(CU::new(x_i, u_i_gates, format!("u^2^{i}"))));
    }
    pe_gates.push(circuit(inv_qft(&x).unwrap()));
    let pe = circuit(U::new(pe_gates, String::from("phase_estimation")));
    let q_out = apply(&pe, 5, basis(5, 16));
    assert_eq!(most_plausible(&q_out), (1 << 4) | (1 << 1));
}

fn sample_state() -> Vec<Amp> {
    let raw: Vec<Amp> = (0..8)
        .map(|i| (((i * 7 + 3) % 11) as f64 - 5.0, ((i * 5 + 1) % 7) as f64 - 3.0))
        .collect();
    let norm: f64 = raw.iter().map(|a| a.0 * a.0 + a.1 * a.1).sum::<f64>().sqrt();
    raw.iter().map(|a| (a.0 / norm, a.1 / norm)).collect()
}

#[test]
fn x_twice_restores_state() {
    for q in 0..3 {
        let x = Gate::X(X::new(q));
        let s = sample_state();
        let out = apply(&x, 3, apply(&x, 3, s.clone()));
        assert_eq!(out, s);
    }
}

#[test]
fn h_twice_restores_state() {
    for q in 0..3 {
        let h = Gate::H(H::new(q));
        let s = sample_state();
        let out = apply(&h, 3, apply(&h, 3, s.clone()));
        isequal_qubits(&out, &s);
    }
}

#[test]
fn iqft_undoes_qft_on_sample_state() {
    let u = circuit(qft(&vec![0, 1, 2]).unwrap());
    let u2 = circuit(inv_qft(&vec![0, 1, 2]).unwrap());
    let s = sample_state();
    let out = apply(&u2, 3, apply(&u, 3, s.clone()));
    isequal_qubits(&out, &s);
}
