//! Runtime selection of a checksum implementation.
//!
//! For each checksum, dispatch picks exactly one implementation on first
//! use, probing host capabilities in a fixed priority order from most
//! specialized to the portable reference algorithm as universal fallback,
//! and the choice never changes once made.  This build is portable safe
//! code and targets no instruction-set extension, so the accelerated tier
//! is empty: every probe reports absence, and dispatch falls through to
//! the reference algorithm.  Absence of every accelerated capability is
//! the normal condition, not an error.

use vstd::prelude::*;

verus! {

/// Instruction-set extensions that accelerated checksum kernels would
/// require.
#[derive(Clone, Copy, Debug, PartialEq, Eq, Structural)]
pub enum Feature {
    /// Vectorized integer multiply-accumulate.
    VectorMac,
    /// Carry-less multiplication.
    CarrylessMul,
    /// Carry-less multiplication at a wider vector width.
    WideCarrylessMul,
    /// A dedicated CRC instruction.
    CrcInstruction,
}

/// Side-effect-free, idempotent query of host capabilities.  The portable
/// build can use no instruction-set extension, so every query reports
/// absence.
pub fn has_feature(feature: Feature) -> (r: bool)
    ensures
        !r,
{
    match feature {
        Feature::VectorMac => false,
        Feature::CarrylessMul => false,
        Feature::WideCarrylessMul => false,
        Feature::CrcInstruction => false,
    }
}

/// The implementations a dispatcher can select.  With the accelerated
/// tier empty, the only qualifying implementation of each checksum is its
/// reference algorithm.
#[derive(Clone, Copy, Debug, PartialEq, Eq, Structural)]
pub enum Implementation {
    Reference,
}

/// The selection that the fixed priority order yields on this host: every
/// probe reports absence, so the universal fallback wins.
pub open spec fn preferred_implementation() -> Implementation {
    Implementation::Reference
}

/// Per-checksum selection state: unresolved until the first invocation,
/// then permanently resolved to one implementation.
pub struct Dispatcher {
    choice: Option<Implementation>,
}

impl Dispatcher {
    pub closed spec fn resolved(self) -> bool {
        self.choice is Some
    }

    pub closed spec fn selection(self) -> Implementation {
        match self.choice {
            Option::Some(sel) => sel,
            Option::None => preferred_implementation(),
        }
    }

    pub fn new() -> (d: Dispatcher)
        ensures
            !d.resolved(),
    {
        Dispatcher { choice: None }
    }

    /// Resolves the dispatcher on first use and returns the cached choice
    /// afterwards.  Once resolved, the state never changes and every later
    /// call returns the same implementation; the first resolution is
    /// deterministic, so concurrent first uses converge on one choice.
    pub fn resolve(&mut self) -> (r: Implementation)
        ensures
            final(self).resolved(),
            r == final(self).selection(),
            r == old(self).selection(),
            old(self).resolved() ==> *final(self) == *old(self),
            !old(self).resolved() ==> r == preferred_implementation(),
    {
        match self.choice {
            Some(sel) => sel,
            None => {
                // Probe in fixed priority order, most specialized first.
                // No accelerated kernel exists in this portable build, so
                // the reference algorithm is the first qualifying choice.
                let sel = Implementation::Reference;
                self.choice = Some(sel);
                sel
            },
        }
    }
}

/// Dispatch is idempotent: whatever sequence of resolutions two
/// dispatchers for the same checksum have gone through, they select the
/// same implementation.
pub proof fn lemma_dispatch_converges(a: Dispatcher, b: Dispatcher)
    requires
        a.resolved() ==> a.selection() == preferred_implementation(),
        b.resolved() ==> b.selection() == preferred_implementation(),
    ensures
        a.selection() == b.selection(),
{
}

} // verus!
