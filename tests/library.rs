use qit::basis::{check_basis, marginal_index};
use qit::circuits::{
    add_const, add_const_2_power, check_unique, cmm_const, full_adder_nbits, me_const, mod_add,
    mod_add_const, overflow_qadd_const, overflow_qadd_const_2_power, overflow_qsub_const, qft,
    swap, wrapping_qadd_const, wrapping_qadd_const_2_power, wrapping_qsub_const,
};
use qit::error::QitError;
use qit::gates::{Action, Gate, Step, CCX, CNX, CU, CX, H, R, U, X, Y, Z};
use qit::mod_funcs::{is_coprime, mod_inv, mod_power};
use qit::walker::BitSlideIndex;

#[test]
fn mod_power_values() {
    assert_eq!(mod_power(7, 0, 15), 1);
    assert_eq!(mod_power(7, 1, 15), 7);
    assert_eq!(mod_power(7, 2, 15), 4);
    assert_eq!(mod_power(7, 4, 15), 1);
    assert_eq!(mod_power(2, 10, 1000), 24);
    assert_eq!(mod_power(20, 1, 15), 20);
    assert_eq!(mod_power(20, 3, 15), 5);
}

#[test]
fn is_coprime_values() {
    assert!(is_coprime(7, 15));
    assert!(!is_coprime(6, 15));
    assert!(is_coprime(1, 1));
    assert!(!is_coprime(0, 15));
    assert!(is_coprime(15, 7));
}

#[test]
fn mod_inv_values() {
    assert_eq!(mod_inv(7, 15), 13);
    assert_eq!(mod_inv(2, 15), 8);
    assert_eq!(mod_inv(4, 15), 4);
    assert_eq!(mod_inv(3, 7), 5);
    assert_eq!(mod_inv(22, 15), 13);
    assert_eq!(mod_inv(5, 1), 1);
}

#[test]
fn walker_yields_masked_indices_in_order() {
    let mut w = BitSlideIndex::new(16, 0b0101);
    let mut got = Vec::new();
    while let Some(i) = w.next() {
        got.push(i);
    }
    assert_eq!(got, vec![5, 7, 13, 15]);
    assert_eq!(w.next(), None);
    w.init();
    assert_eq!(w.next(), Some(5));
}

#[test]
fn walker_merge_rejects_overlap() {
    let w = BitSlideIndex::new(8, 0b010);
    assert!(matches!(w.merge(0b011), Err(QitError::MaskOverlap)));
    let m = w.merge(0b100).unwrap();
    assert_eq!(m.mask, 0b110);
    let mut m = m;
    assert_eq!(m.next(), Some(6));
    assert_eq!(m.next(), Some(7));
    assert_eq!(m.next(), None);
}

#[test]
fn x_twice_restores_basis_and_steps() {
    for q in 0..3usize {
        let x = Gate::X(X::new(q));
        for k in 0..8u64 {
            let once = x.basis_image(k).unwrap();
            assert_eq!(once, k ^ (1 << q));
            assert_eq!(x.basis_image(once).unwrap(), k);
        }
        let twice = Gate::U(U::new(vec![Gate::X(X::new(q)), Gate::X(X::new(q))], String::from("xx")));
        for k in 0..8u64 {
            assert_eq!(twice.basis_image(k).unwrap(), k);
        }
    }
}

#[test]
fn steps_carry_masks_and_actions() {
    let cu = Gate::CU(CU::new(2, vec![Gate::CX(CX::new(0, 1)), Gate::R(R::new(1, 1, 3))], String::from("c")));
    let steps = cu.steps(3).unwrap();
    assert_eq!(
        steps,
        vec![
            Step { action: Action::Flip, target: 1, mask: 0b111 },
            Step { action: Action::Phase(1, 3), target: 1, mask: 0b110 },
        ]
    );
    let y = Gate::Y(Y::new(0));
    assert_eq!(y.steps(1).unwrap(), vec![Step { action: Action::PauliY, target: 0, mask: 1 }]);
    let z = Gate::Z(Z::new(1));
    assert_eq!(z.steps(2).unwrap(), vec![Step { action: Action::PauliZ, target: 1, mask: 2 }]);
}

#[test]
fn control_equal_to_target_fails() {
    let cx = Gate::CX(CX::new(1, 1));
    assert!(matches!(cx.steps(3), Err(QitError::MaskOverlap)));
    let ccx = Gate::CCX(CCX::new(0, 2, 0));
    assert!(matches!(ccx.steps(3), Err(QitError::MaskOverlap)));
    let cnx = Gate::CNX(CNX::new(vec![0, 1, 1], 2));
    assert!(matches!(cnx.steps(3), Err(QitError::MaskOverlap)));
}

#[test]
fn control_reused_inside_fails() {
    let cu = Gate::CU(CU::new(0, vec![Gate::CX(CX::new(0, 1))], String::from("bad")));
    assert!(matches!(cu.steps(2), Err(QitError::MaskOverlap)));
    let nested = Gate::CU(CU::new(1, vec![Gate::CU(CU::new(1, vec![Gate::X(X::new(0))], String::from("in")))], String::from("out")));
    assert!(matches!(nested.steps(2), Err(QitError::MaskOverlap)));
}

#[test]
fn qubit_beyond_register_fails() {
    let h = Gate::H(H::new(3));
    assert!(matches!(h.steps(3), Err(QitError::QubitOutOfRange)));
    assert!(matches!(h.steps(64), Err(QitError::RegisterTooLarge)));
    assert!(matches!(h.basis_image(0), Err(QitError::NotClassical)));
    let x = Gate::X(X::new(70));
    assert!(matches!(x.basis_image(0), Err(QitError::QubitOutOfRange)));
}

#[test]
fn reverse_inverts_order_and_nesting() {
    let mut u = U::new(
        vec![
            Gate::X(X::new(0)),
            Gate::U(U::new(vec![Gate::CX(CX::new(0, 1)), Gate::CCX(CCX::new(0, 1, 2))], String::from("in"))),
            Gate::H(H::new(2)),
        ],
        String::from("out"),
    );
    u.reverse();
    assert!(matches!(u.gates[0], Gate::H(_)));
    match &u.gates[1] {
        Gate::U(inner) => {
            assert!(matches!(inner.gates[0], Gate::CCX(_)));
            assert!(matches!(inner.gates[1], Gate::CX(_)));
        }
        _ => panic!("expected a composite"),
    }
    assert!(matches!(u.gates[2], Gate::X(_)));
}

#[test]
fn reversed_adder_subtracts() {
    let add = Gate::U(full_adder_nbits(&[3, 4, 5], &[0, 1, 2], &[6, 7, 8]).unwrap());
    let sub = add_then_reverse();
    for k in 0..64u64 {
        let s = add.basis_image(k).unwrap();
        assert_eq!(sub.basis_image(s).unwrap(), k);
    }
}

fn add_then_reverse() -> Gate {
    Gate::U(full_adder_nbits(&[3, 4, 5], &[0, 1, 2], &[6, 7, 8]).unwrap()).into_reversed()
}

#[test]
fn builder_errors() {
    assert!(matches!(full_adder_nbits(&[0, 1], &[2], &[3, 4]), Err(QitError::LengthMismatch)));
    assert!(matches!(full_adder_nbits(&[], &[], &[]), Err(QitError::EmptyRegister)));
    assert!(matches!(full_adder_nbits(&[0, 1], &[1, 2], &[3, 4]), Err(QitError::DuplicateQubit)));
    assert!(matches!(swap(&[0, 1], &[2]), Err(QitError::LengthMismatch)));
    assert!(matches!(swap(&[0, 1], &[2, 0]), Err(QitError::DuplicateQubit)));
    assert!(matches!(add_const_2_power(&[0, 1, 2], 2), Err(QitError::ConstantTooLarge)));
    assert!(matches!(add_const_2_power(&[], 0), Err(QitError::EmptyRegister)));
    assert!(matches!(overflow_qadd_const_2_power(&[0, 1], 1, 0), Err(QitError::DuplicateQubit)));
    assert!(matches!(wrapping_qadd_const_2_power(&[0, 1], 2), Err(QitError::ConstantTooLarge)));
    assert!(matches!(add_const(&[0, 1, 2], 4), Err(QitError::ConstantTooLarge)));
    assert!(matches!(add_const(&[0], 0), Err(QitError::EmptyRegister)));
    assert!(matches!(overflow_qadd_const(&[0, 1], 2, 4), Err(QitError::ConstantTooLarge)));
    assert!(matches!(wrapping_qadd_const(&[0, 0], 1), Err(QitError::DuplicateQubit)));
    assert!(matches!(overflow_qsub_const(&[], 2, 0), Err(QitError::EmptyRegister)));
    assert!(matches!(wrapping_qsub_const(&[0, 1], 9), Err(QitError::ConstantTooLarge)));
    assert!(matches!(mod_add(&[0], &[1], &[2], &[3], 4, 2), Err(QitError::ConstantTooLarge)));
    assert!(matches!(mod_add(&[0, 1], &[2, 3], &[4, 5], &[6], 7, 1), Err(QitError::LengthMismatch)));
    assert!(matches!(mod_add(&[0, 1], &[2, 3], &[4, 5], &[6, 7], 0, 1), Err(QitError::DuplicateQubit)));
    assert!(matches!(mod_add_const(&[0, 1, 2], 3, 8, 7), Err(QitError::ConstantTooLarge)));
    assert!(matches!(mod_add_const(&[0, 1, 2], 2, 1, 7), Err(QitError::DuplicateQubit)));
    assert!(matches!(cmm_const(&[0, 1], &[2, 3], 4, 5, 1, 0), Err(QitError::InvalidModulus)));
    assert!(matches!(cmm_const(&[0, 1], &[2, 3], 4, 5, 4, 3), Err(QitError::ConstantTooLarge)));
    assert!(matches!(cmm_const(&[0, 1], &[2], 4, 5, 1, 3), Err(QitError::LengthMismatch)));
    assert!(matches!(cmm_const(&[0, 1], &[2, 3], 4, 4, 1, 3), Err(QitError::DuplicateQubit)));
    assert!(matches!(me_const(&[0], &[1, 2], &[3, 4], 5, 6, 15), Err(QitError::NotCoprime)));
    assert!(matches!(me_const(&[0], &[1, 2], &[3, 4], 5, 2, 1), Err(QitError::InvalidModulus)));
    assert!(matches!(me_const(&[0], &[1, 2], &[3], 5, 2, 3), Err(QitError::LengthMismatch)));
    assert!(matches!(me_const(&[0], &[], &[], 5, 2, 3), Err(QitError::EmptyRegister)));
    assert!(matches!(me_const(&[0], &[1, 2], &[3, 4], 5, 2, 7), Err(QitError::ConstantTooLarge)));
    assert!(matches!(me_const(&[0], &[1, 2], &[3, 0], 5, 2, 3), Err(QitError::DuplicateQubit)));
    assert!(matches!(qft(&[0, 1, 0]), Err(QitError::DuplicateQubit)));
    let wide: Vec<usize> = (0..64).collect();
    assert!(matches!(qft(&wide), Err(QitError::RegisterTooLarge)));
}

#[test]
fn check_unique_values() {
    assert!(check_unique(&[0, 1, 2, 5]));
    assert!(!check_unique(&[0, 1, 2, 1]));
    assert!(check_unique(&[]));
}

#[test]
fn basis_checks() {
    assert_eq!(check_basis(3, 7), Ok(8));
    assert_eq!(check_basis(3, 8), Err(QitError::BasisOutOfRange));
    assert_eq!(check_basis(64, 0), Err(QitError::RegisterTooLarge));
    assert_eq!(check_basis(0, 0), Ok(1));
}

#[test]
fn marginal_index_gathers_bits() {
    assert_eq!(marginal_index(0b1010, &[1, 3]), 0b11);
    assert_eq!(marginal_index(0b1010, &[0, 1]), 0b10);
    assert_eq!(marginal_index(0b1010, &[3, 2, 1]), 0b101);
    assert_eq!(marginal_index(0b1111, &[]), 0);
}

#[test]
fn constant_adder_wraps() {
    let u = Gate::U(wrapping_qadd_const(&[0, 1, 2], 5).unwrap());
    for b in 0..8u64 {
        assert_eq!(u.basis_image(b).unwrap(), (b + 5) % 8);
    }
    let o = Gate::U(overflow_qadd_const(&[0, 1, 2], 3, 5).unwrap());
    for b in 0..8u64 {
        assert_eq!(o.basis_image(b).unwrap(), b + 5);
    }
    let s = Gate::U(wrapping_qsub_const(&[0, 1, 2], 5).unwrap());
    for b in 0..8u64 {
        assert_eq!(s.basis_image(b).unwrap(), (b + 8 - 5) % 8);
    }
}

#[test]
fn mod_add_const_reduces() {
    let u = Gate::U(mod_add_const(&[0, 1, 2, 3], 4, 9, 13).unwrap());
    for b in 0..13u64 {
        assert_eq!(u.basis_image(b).unwrap(), (b + 9) % 13);
    }
}

#[test]
fn cmm_const_without_control_copies() {
    let u = Gate::U(cmm_const(&[0, 1, 2, 3], &[4, 5, 6, 7], 8, 9, 7, 15).unwrap());
    for b in 0..15u64 {
        assert_eq!(u.basis_image(b).unwrap(), b | (b << 4));
        assert_eq!(u.basis_image(b | 1 << 9).unwrap(), b | (((7 * b) % 15) << 4) | 1 << 9);
    }
}

#[test]
fn me_const_every_coprime_base() {
    let n = 15;
    for a in 1..n {
        if !is_coprime(a, n) {
            assert!(matches!(
                me_const(&[0, 1, 2, 3], &[4, 5, 6, 7], &[8, 9, 10, 11], 12, a, n),
                Err(QitError::NotCoprime)
            ));
            continue;
        }
        let u = Gate::U(me_const(&[0, 1, 2, 3], &[4, 5, 6, 7], &[8, 9, 10, 11], 12, a, n).unwrap());
        for x in 1..8u64 {
            let out = u.basis_image(x).unwrap();
            assert_eq!(out & 0b1111, x);
            assert_eq!((out >> 4) & 0b1111, mod_power(a, x as usize, n) as u64);
            assert_eq!(out >> 8, 0);
        }
    }
}

#[test]
fn mod_add_restores_modulus_and_flag() {
    let u = Gate::U(mod_add(&[0, 1, 2, 3], &[4, 5, 6, 7], &[8, 9, 10, 11], &[12, 13, 14, 15], 16, 7).unwrap());
    for a in 0..7u64 {
        for b in 0..7u64 {
            let out = u.basis_image(a | (b << 4) | (7 << 8)).unwrap();
            assert_eq!(out, a | (((a + b) % 7) << 4) | (7 << 8));
        }
    }
}
