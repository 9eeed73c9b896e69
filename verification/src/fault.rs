//! What can stop a scan.

use vstd::prelude::*;

verus! {

/// Why a scan stopped, as a mathematical value.
pub enum Fault {
    /// A sum no longer fits in 64 bits.
    Overflow,
    /// The snapshot has not looked at this path yet.
    Unknown(Seq<char>),
    /// The snapshot has looked at this path and found nothing there, though
    /// something beneath it exists.
    Vanished(Seq<char>),
    /// The walk took more steps than it was given.
    StepLimit,
}

/// Why a scan stopped.
#[derive(Debug)]
pub enum WalkError {
    /// A sum no longer fits in 64 bits.
    Overflow,
    /// The snapshot has not looked at this path yet: look at it and call again.
    Unknown(String),
    /// The snapshot has looked at this path and found nothing there, though
    /// something beneath it exists.
    Vanished(String),
    /// The walk took more steps than it was given.
    StepLimit,
}

impl View for WalkError {
    type V = Fault;

    open spec fn view(&self) -> Fault {
        match self {
            WalkError::Overflow => Fault::Overflow,
            WalkError::Unknown(p) => Fault::Unknown(p@),
            WalkError::Vanished(p) => Fault::Vanished(p@),
            WalkError::StepLimit => Fault::StepLimit,
        }
    }
}

} // verus!
