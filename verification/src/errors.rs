//! Failure kinds of the fork state reconstruction run.

use vstd::prelude::*;

verus! {

/// What went wrong while digesting a configuration, a layout artifact, or a
/// remote fetch.
///
/// `ConfigError` is fatal for the whole run and is raised before any state is
/// assembled; `ParseError`, `UnknownTypeError`, `KeyTooLongError` and
/// `RemoteFetchError` are fatal only for the contract they arise in.
#[derive(Clone, Copy, Debug, PartialEq, Eq, Structural)]
pub enum DigestError {
    /// The configuration is malformed: a duplicate contract address, an
    /// artifact list that does not line up with the declared contracts, or
    /// a configured mapping key that is not valid hexadecimal.
    ConfigError,
    /// A layout artifact could not be read or does not match the expected
    /// schema (including a slot or byte-width field that is not a decimal
    /// number in range).
    ParseError,
    /// A storage item or a mapping descriptor references a type id that is
    /// absent from the layout's type table.
    UnknownTypeError,
    /// A configured mapping key decodes to more than 32 bytes, or to more
    /// bytes than its key type's declared byte width allows; never a silent
    /// truncation.
    KeyTooLongError,
    /// The remote snapshot holds no value for a requested account or slot.
    RemoteFetchError,
}

} // verus!
