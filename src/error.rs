//! The error type shared by state construction, gate application and the
//! circuit builders.
use vstd::prelude::*;

verus! {

/// Why a gate could not be applied, a circuit could not be built or a
/// register state could not be made.
#[derive(Debug, Clone, Copy, PartialEq, Eq, Structural)]
pub enum QitError {
    /// Two claims on the same qubit within one branch of a gate tree.
    MaskOverlap,
    /// A qubit index at or beyond the register size.
    QubitOutOfRange,
    /// A register of more qubits than an index can address.
    RegisterTooLarge,
    /// Registers that must have equal lengths do not.
    LengthMismatch,
    /// A register that must hold at least one qubit (or two) is too short.
    EmptyRegister,
    /// A constant needs more bits than the register offers.
    ConstantTooLarge,
    /// Two qubit roles that must be disjoint share a qubit.
    DuplicateQubit,
    /// The modulus is too small, or too large for the arithmetic to fit.
    InvalidModulus,
    /// The base of a modular exponentiation shares a factor with the modulus.
    NotCoprime,
    /// A basis index beyond the register, or an amplitude list of the wrong length.
    BasisOutOfRange,
    /// A circuit that holds a gate with no classical meaning (a Hadamard).
    NotClassical,
}

} // verus!
