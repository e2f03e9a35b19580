use vstd::prelude::*;

verus! {

/// Lifecycle errors raised when an entry is in the wrong state.
#[derive(Debug, Clone, Copy, PartialEq, Eq, Structural)]
pub enum StateExtensionError {
    /// Clearing an entry that is already zeroed.
    ExtensionDataAleadyZerod,
    /// Rewriting an entry that was zeroed.
    ExtensionDataIsNotInitialized,
}

impl StateExtensionError {
    /// The custom error code under which the host reports this error.
    pub fn code(&self) -> (r: u32)
        ensures
            r == (match self {
                StateExtensionError::ExtensionDataAleadyZerod => 0u32,
                StateExtensionError::ExtensionDataIsNotInitialized => 1u32,
            }),
    {
        match self {
            StateExtensionError::ExtensionDataAleadyZerod => 0,
            StateExtensionError::ExtensionDataIsNotInitialized => 1,
        }
    }
}

/// Every failure an operation on the extension region can report.
#[derive(Debug, Clone, Copy, PartialEq, Eq, Structural)]
pub enum ExtensionError {
    /// The buffer is not owned by the expected program.
    IllegalOwner,
    /// The buffer or a payload does not have the expected shape.
    InvalidAccountData,
    /// An entry is in the wrong lifecycle state.
    State(StateExtensionError),
}

} // verus!
