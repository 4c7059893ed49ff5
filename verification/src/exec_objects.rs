//! Plain enumerations describing transaction execution results.

use vstd::prelude::*;

verus! {

/// Library call or regular call.
#[derive(Clone, Copy, Debug, PartialEq, Eq, Structural)]
pub enum CallType {
    Call,
    LibraryCall,
}

/// The unit of the fee.
#[derive(Clone, Copy, Debug, PartialEq, Eq, Structural, Hash)]
pub enum PriceUnit {
    /// Wei.
    Wei,
    /// Fri.
    Fri,
}

impl Default for PriceUnit {
    fn default() -> (r: Self)
        ensures
            r == PriceUnit::Wei,
    {
        PriceUnit::Wei
    }
}

/// The resource used to run a contract function.
#[derive(Clone, Copy, Debug, PartialEq, Eq, Structural)]
pub enum TrackedResource {
    /// VM mode.
    CairoSteps,
    /// Sierra mode.
    SierraGas,
}

impl Default for TrackedResource {
    fn default() -> (r: Self)
        ensures
            r == TrackedResource::CairoSteps,
    {
        TrackedResource::CairoSteps
    }
}

/// The reason for a reverted transaction.
#[derive(Clone, Debug, PartialEq, Eq)]
pub enum RevertReason {
    RevertReason(String),
}

} // verus!
