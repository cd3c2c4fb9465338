use vstd::prelude::*;

verus! {

/// Stage of `unmix` at which a parity checksum failed.
#[derive(Clone, Copy, Debug, PartialEq, Eq)]
pub enum ChecksumStage {
    /// The salted value did not match the salt-parity bit of the control byte.
    RandSalt,
    /// The unsalted value did not match the key-parity bit of the control byte.
    Key,
}

/// Failure of a mixing or codec operation. Each variant carries the
/// offending values, so a caller can render a full diagnostic message.
#[derive(Clone, Copy, Debug, PartialEq, Eq)]
pub enum MixError {
    /// The identifier exceeds the largest mixable value.
    Domain { id: u64, limit: u64 },
    /// The alphabet given to a codec repeats a character.
    DuplicateCharacter { c: char },
    /// The alphabet given to a codec has fewer than two characters.
    AlphabetTooShort,
    /// A string being decoded holds a character absent from the alphabet.
    InvalidCharacter { c: char },
    /// A string being decoded denotes a number beyond the 64-bit range.
    Overflow { value: u128, limit: u64 },
    /// A parity self-check failed in `unmix`: wrong key or tampered value.
    Checksum { stage: ChecksumStage },
}

} // verus!
