//! Errors of the control plane.
use vstd::prelude::*;

use crate::manifest::LbFault;

verus! {

/// Why a manifest is refused, or why the registry cannot be used.
#[derive(Debug)]
pub enum ControlError {
    /// The named upstream lists no address.
    EmptyUpstreamAddresses(String),
    /// The named upstream is declared twice.
    DuplicateUpstream(String),
    /// The load-balancing configuration of the named upstream is refused.
    InvalidUpstreamLb {
        name: String,
        reason: LbFault,
    },
    /// So many instances or groups were made that no identifier is left.
    IdentifiersExhausted,
    /// A holder of the lock round the registry panicked.
    UpstreamRegistryPoisoned,
}

/// [`ControlError`] as plain values.
#[verifier::ext_equal]
pub enum ErrorView {
    EmptyUpstreamAddresses(Seq<char>),
    DuplicateUpstream(Seq<char>),
    InvalidUpstreamLb(Seq<char>, LbFault),
    IdentifiersExhausted,
    UpstreamRegistryPoisoned,
}

impl View for ControlError {
    type V = ErrorView;

    open spec fn view(&self) -> ErrorView {
        match self {
            ControlError::EmptyUpstreamAddresses(name) => ErrorView::EmptyUpstreamAddresses(name@),
            ControlError::DuplicateUpstream(name) => ErrorView::DuplicateUpstream(name@),
            ControlError::InvalidUpstreamLb { name, reason } => ErrorView::InvalidUpstreamLb(
                name@,
                *reason,
            ),
            ControlError::IdentifiersExhausted => ErrorView::IdentifiersExhausted,
            ControlError::UpstreamRegistryPoisoned => ErrorView::UpstreamRegistryPoisoned,
        }
    }
}

/// An error says what it holds.
pub proof fn lemma_error_says_what_it_holds(error: ControlError)
    ensures
        match error {
            ControlError::EmptyUpstreamAddresses(name) => error@
                == ErrorView::EmptyUpstreamAddresses(name@),
            ControlError::DuplicateUpstream(name) => error@ == ErrorView::DuplicateUpstream(name@),
            ControlError::InvalidUpstreamLb { name, reason } => error@
                == ErrorView::InvalidUpstreamLb(name@, reason),
            ControlError::IdentifiersExhausted => error@ == ErrorView::IdentifiersExhausted,
            ControlError::UpstreamRegistryPoisoned => error@ == ErrorView::UpstreamRegistryPoisoned,
        },
{
}

} // verus!
