//! Reversible obfuscation of bounded integer identifiers.
//!
//! A 56-bit identifier is scrambled with a caller-supplied 64-bit key and a
//! per-call 5-bit random nonce (`idmixer::mix` / `idmixer::unmix`); the
//! scrambled value carries a control byte with the nonce, a size-class
//! padding flag and two parity checksums, so `unmix` needs no side state.
//! `encoder::custom::CustomEncoder` renders a 64-bit value as a string in a
//! caller-defined positional alphabet, and `idmixer::encode` /
//! `idmixer::decode` compose the two stages.

pub mod encoder;
pub mod err;
pub mod idmixer;
pub mod sizeclass;

use vstd::prelude::*;

verus! {

/// Largest identifier of the `Small` size class, and its key mask.
pub const MAX_U16: u64 = 65535;

/// Largest identifier of the `Medium` size class, and its key mask.
pub const MAX_U32: u64 = 4294967295;

/// Largest mixable identifier (56 bits), and the `Large` key mask.
pub const MAX_U56: u64 = 72057594037927935;

/// Largest value a decoded string may denote.
pub const MAX_U64: u64 = 18446744073709551615;

} // verus!
