use vstd::prelude::*;
use crate::error::ExtensionError;
use crate::locator::EXT_META_LEN;
use crate::state::{ExtensionEnum, ExtensionState};

verus! {

/// A fixed-size payload type that can be stored as an entry of the region.
///
/// Each implementation writes its fields out one by one into exactly `LEN`
/// bytes and reads them back; decoding what was encoded gives the value back.
pub trait Extension: Sized {
    /// The payload length, in bytes, of every entry of this type.
    const LEN: u16;

    /// The caller's set of extension kinds that tags are read as.
    type ExtensionEnum: ExtensionEnum;

    /// The tag byte that identifies this type.
    spec fn spec_ext_type() -> u8;

    /// The bytes a value is written as.
    spec fn encoded(&self) -> Seq<u8>;

    /// The value that `LEN` bytes are read as.
    spec fn decoded(bytes: Seq<u8>) -> Self;

    /// Every value is written as exactly `LEN` bytes.
    proof fn lemma_encoded_len(&self)
        ensures
            self.encoded().len() == Self::LEN,
    ;

    /// Reading back what was written gives the value.
    proof fn lemma_decode_encode(&self)
        ensures
            Self::decoded(self.encoded()) == *self,
    ;

    fn ext_type() -> (r: u8)
        ensures
            r == Self::spec_ext_type(),
    ;

    fn ext_len() -> (r: u16)
        ensures
            r == Self::LEN,
    {
        Self::LEN
    }

    /// The bytes one entry of this type occupies, header included.
    fn ext_with_meta_len() -> (r: usize)
        ensures
            r == Self::LEN + EXT_META_LEN,
    {
        Self::LEN as usize + EXT_META_LEN
    }

    /// Writes the value out field by field.
    fn pack(&self) -> (r: Vec<u8>)
        ensures
            r@ == self.encoded(),
    ;

    /// Reads a value from exactly `LEN` bytes.
    fn decode(bytes: &[u8]) -> (r: Self)
        requires
            bytes@.len() == Self::LEN,
        ensures
            r == Self::decoded(bytes@),
    ;

    /// Reads a value, refusing input of any other length than `LEN`.
    fn unpack(bytes: &[u8]) -> (r: Result<Self, ExtensionError>)
        ensures
            bytes@.len() == Self::LEN ==> r == Ok::<Self, ExtensionError>(Self::decoded(bytes@)),
            bytes@.len() != Self::LEN ==> r == Err::<Self, ExtensionError>(ExtensionError::InvalidAccountData),
    {
        if bytes.len() != Self::LEN as usize {
            return Err(ExtensionError::InvalidAccountData);
        }
        Ok(Self::decode(bytes))
    }
}

/// What `unpack` gives for `bytes`, as its contract states.
pub open spec fn unpacked<E: Extension>(bytes: Seq<u8>) -> Result<E, ExtensionError> {
    if bytes.len() == E::LEN {
        Ok(E::decoded(bytes))
    } else {
        Err(ExtensionError::InvalidAccountData)
    }
}

/// Decoding an encoded value gives the value back, and input of any length
/// other than the type's `LEN` is refused as malformed.
pub proof fn unpack_pack_round_trip<E: Extension>(v: E, bytes: Seq<u8>)
    ensures
        unpacked::<E>(v.encoded()) == Ok::<E, ExtensionError>(v),
        bytes.len() != E::LEN ==> unpacked::<E>(bytes) == Err::<E, ExtensionError>(ExtensionError::InvalidAccountData),
{
    v.lemma_encoded_len();
    v.lemma_decode_encode();
}

/// An entry found in the region: its decoded payload, where its header
/// starts and its lifecycle state.
#[derive(Debug)]
pub struct ExtensionInfo<E: Extension> {
    pub ext: E,
    pub position: usize,
    pub state: ExtensionState,
}

} // verus!
