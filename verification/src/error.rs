//! Why an action is rejected.

use vstd::prelude::*;

verus! {

/// The reasons for which the dispatcher rejects an action. Each is reported
/// to the sender only and leaves the shared state as it was.
#[derive(Clone, Copy, Debug, PartialEq, Eq, Structural)]
pub enum DispatchError {
    /// The connection has not joined a classroom.
    Unauthenticated,
    /// The sender's role or identity does not allow the action.
    PermissionDenied,
    /// The classroom, user or assignment named does not exist.
    NotFound,
    /// The action does not fit the current state.
    InvalidState,
    /// The action code or a field of the action cannot be read.
    MalformedPayload,
}

impl DispatchError {
    /// A short name for the error, for reporting it to the sender.
    pub fn name(&self) -> (text: &'static str)
        ensures
            text@ == self.spec_name(),
    {
        match self {
            DispatchError::Unauthenticated => "unauthenticated",
            DispatchError::PermissionDenied => "permission_denied",
            DispatchError::NotFound => "not_found",
            DispatchError::InvalidState => "invalid_state",
            DispatchError::MalformedPayload => "malformed_payload",
        }
    }

    /// The short name of the error.
    pub open spec fn spec_name(&self) -> Seq<char> {
        match self {
            DispatchError::Unauthenticated => "unauthenticated"@,
            DispatchError::PermissionDenied => "permission_denied"@,
            DispatchError::NotFound => "not_found"@,
            DispatchError::InvalidState => "invalid_state"@,
            DispatchError::MalformedPayload => "malformed_payload"@,
        }
    }
}

} // verus!
