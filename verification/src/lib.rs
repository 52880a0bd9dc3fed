//! A weightless associative-memory classifier for short audio utterances.
//!
//! The verified core covers the WiSARD-style classifier (sparse counter
//! tables, per-class discriminators, bleaching search) and the discrete
//! stages of the kernel-canvas binarizer (nearest-kernel quantization,
//! canvas painting and tiling). Floating-point feature extraction is
//! supplied by callers.

use vstd::prelude::*;

pub mod discriminator;
pub mod wisard;
pub mod kernelcanvas;
pub mod preprocessor;
pub mod ram;

verus! {

/// Boundary violations detected at the call that breaks a configuration
/// contract: the operation is aborted and the state left unchanged.
#[derive(Clone, Copy, Debug, PartialEq, Eq, Structural)]
pub enum ConfigurationError {
    /// A RAM address width outside 1..=62 bits.
    NumBitsOutOfRange,
    /// A RAM address beyond the table's maximum address.
    AddressOutOfRange,
    /// A retina whose length differs from the configured retina size.
    RetinaLengthMismatch,
    /// A minimum-confidence ratio that does not lie in [0, 1].
    ConfidenceOutOfRange,
}

} // verus!
