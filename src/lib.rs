//! A quantum register simulator that tracks the amplitude vector directly,
//! together with a library of reversible arithmetic circuits built from
//! composable gates.
//!
//! - `gates`: gate trees (leaf gates, composites, controlled composites),
//!   its model `Op`, structural reversal, the leaf steps that run it on an
//!   amplitude vector, and what it does to basis strings.
//! - `walker`: the bit-sliding index walker that yields the amplitude indices
//!   a leaf step touches.
//! - `circuits`: adders, constant adders and subtractors, modular addition,
//!   controlled modular multiplication, modular exponentiation and the
//!   quantum Fourier transform.
//! - `mod_funcs`: modular power, coprimality and modular inverse.
//! - `basis`: basis-index checks and the index of a basis string in a
//!   marginal distribution.
//! - `reversal`, `const_adder_law`, `ripple_law`, `swap_law`, `adder_law`,
//!   `mod_add_law`: proofs of what the circuits do.
pub mod adder_law;
pub mod basis;
pub mod circuits;
pub mod const_adder_law;
pub mod error;
pub mod gates;
pub mod mod_add_law;
pub mod mod_funcs;
pub mod reversal;
pub mod swap_law;
pub mod ripple_law;
pub mod walker;
