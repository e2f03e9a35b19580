use vstd::prelude::*;

verus! {

/// A closed set of logical variants, each identified by one byte.
pub trait ExtensionEnum: Sized {
    /// The variant a byte stands for, if any.
    spec fn spec_from_u8(ext_type: u8) -> Option<Self>;

    /// The byte a variant is written as.
    spec fn spec_as_u8(&self) -> u8;

    fn from_u8(ext_type: u8) -> (r: Option<Self>)
        ensures
            r == Self::spec_from_u8(ext_type),
    ;

    fn as_u8(&self) -> (r: u8)
        ensures
            r == self.spec_as_u8(),
    ;
}

/// The lifecycle state recorded in every entry header.
#[derive(Debug, Clone, Copy, PartialEq, Eq, Structural)]
pub enum ExtensionState {
    Zerod,
    Initialized,
}

/// The byte that records the initialized state. Every path that writes a
/// state, adding and rewriting alike, goes through this mapping.
pub const STATE_INITIALIZED: u8 = 0;

/// The byte that records the zeroed state.
pub const STATE_ZEROED: u8 = 1;

pub open spec fn state_of_byte(b: u8) -> Option<ExtensionState> {
    if b == STATE_INITIALIZED {
        Some(ExtensionState::Initialized)
    } else if b == STATE_ZEROED {
        Some(ExtensionState::Zerod)
    } else {
        None
    }
}

pub open spec fn byte_of_state(s: ExtensionState) -> u8 {
    match s {
        ExtensionState::Initialized => STATE_INITIALIZED,
        ExtensionState::Zerod => STATE_ZEROED,
    }
}

impl ExtensionEnum for ExtensionState {
    open spec fn spec_from_u8(ext_type: u8) -> Option<Self> {
        state_of_byte(ext_type)
    }

    open spec fn spec_as_u8(&self) -> u8 {
        byte_of_state(*self)
    }

    fn from_u8(ext_type: u8) -> (r: Option<Self>) {
        if ext_type == STATE_INITIALIZED {
            Some(ExtensionState::Initialized)
        } else if ext_type == STATE_ZEROED {
            Some(ExtensionState::Zerod)
        } else {
            None
        }
    }

    fn as_u8(&self) -> (r: u8) {
        match self {
            ExtensionState::Initialized => STATE_INITIALIZED,
            ExtensionState::Zerod => STATE_ZEROED,
        }
    }
}

/// Decoding a byte and writing the variant back gives the same byte, and
/// writing a variant and decoding the byte gives the same variant.
pub proof fn state_byte_round_trip(s: ExtensionState, b: u8)
    ensures
        state_of_byte(byte_of_state(s)) == Some(s),
        state_of_byte(b) matches Some(t) ==> byte_of_state(t) == b,
{
}

} // verus!
