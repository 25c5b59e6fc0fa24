//! What an operation of the host is refused with: a kind and a reason.
use vstd::prelude::*;

verus! {

#[derive(Clone, Copy, Debug, PartialEq, Eq, Structural)]
pub enum FaultKind {
    InvalidInput,
    InvalidData,
    NotFound,
    AlreadyExists,
    PermissionDenied,
    TimedOut,
    UnexpectedEof,
    Other,
}

#[derive(Clone, Debug, PartialEq, Eq)]
pub struct Fault {
    pub kind: FaultKind,
    pub message: String,
}

/// A fault as mathematics.
#[verifier::ext_equal]
pub struct FaultView {
    pub kind: FaultKind,
    pub message: Seq<char>,
}

impl View for Fault {
    type V = FaultView;

    open spec fn view(&self) -> FaultView {
        FaultView { kind: self.kind, message: self.message@ }
    }
}

/// A fault with a fixed reason.
pub open spec fn because(kind: FaultKind, reason: &str) -> FaultView {
    FaultView { kind, message: reason@ }
}

/// Makes a fault with a fixed reason.
pub fn fault(kind: FaultKind, reason: &str) -> (fault: Fault)
    ensures
        fault@ == because(kind, reason),
{
    Fault { kind, message: reason.to_owned() }
}

/// Makes a fault with a composed reason.
pub fn fault_of(kind: FaultKind, message: String) -> (fault: Fault)
    ensures
        fault@ == (FaultView { kind, message: message@ }),
{
    Fault { kind, message }
}

/// What another component reported, handed on as it is.
pub open spec fn handed_on(reason: Seq<char>) -> FaultView {
    FaultView { kind: FaultKind::Other, message: reason }
}

/// Whether an operation that gives nothing back ended as its specification
/// says.
pub open spec fn outcome_is(result: Result<(), Fault>, expected: Option<FaultView>) -> bool {
    match expected {
        None => result is Ok,
        Some(fault) => result matches Err(error) && error@ == fault,
    }
}

} // verus!
