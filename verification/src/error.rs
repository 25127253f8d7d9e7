use vstd::prelude::*;

verus! {

/// Errors of the patch core. I/O and repository-path failures belong to the
/// surrounding tooling; the core itself can only be handed malformed input.
#[derive(Clone, Copy, Debug, PartialEq, Eq, Structural)]
pub enum Error {
    /// A textual patch-id token decoded to the wrong length or used
    /// characters outside the token alphabet.
    MalformedId,
    /// A serialized patch document could not be decoded.
    MalformedPatch,
}

impl Error {
    /// A one-line human-readable rendering.
    pub fn message(&self) -> (r: &'static str)
        ensures
            *self == Error::MalformedId ==> r@ == "malformed patch id"@,
            *self == Error::MalformedPatch ==> r@ == "malformed patch file"@,
    {
        match self {
            Error::MalformedId => "malformed patch id",
            Error::MalformedPatch => "malformed patch file",
        }
    }
}

} // verus!
