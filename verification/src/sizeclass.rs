use vstd::prelude::*;

use crate::MAX_U16;
use crate::MAX_U32;
use crate::MAX_U56;

verus! {

/// Magnitude class of an identifier. The class decides how many low key
/// bits take part in the scrambling and how far the nonce is shifted when
/// the salt is formed.
#[derive(Clone, Copy, Debug, PartialEq, Eq, Structural)]
pub enum SizeClass {
    /// Identifiers up to `MAX_U16`.
    Small,
    /// Identifiers above `MAX_U16` up to `MAX_U32`.
    Medium,
    /// Identifiers above `MAX_U32` up to `MAX_U56`.
    Large,
}

/// Class of `value`: pure comparison against the two thresholds.
pub open spec fn classify_spec(value: u64) -> SizeClass {
    if value <= MAX_U16 {
        SizeClass::Small
    } else if value <= MAX_U32 {
        SizeClass::Medium
    } else {
        SizeClass::Large
    }
}

/// Key mask of a class: the low 16, 32 or 56 bits.
pub open spec fn mask_of(c: SizeClass) -> u64 {
    match c {
        SizeClass::Small => MAX_U16,
        SizeClass::Medium => MAX_U32,
        SizeClass::Large => MAX_U56,
    }
}

/// Salt left-shift of a class: 8, 16 or 32 bits.
pub open spec fn salt_shift_of(c: SizeClass) -> u64 {
    match c {
        SizeClass::Small => 8,
        SizeClass::Medium => 16,
        SizeClass::Large => 32,
    }
}

/// Determines which magnitude class `value` falls in.
pub fn classify(value: u64) -> (c: SizeClass)
    ensures
        c == classify_spec(value),
{
    if value <= MAX_U16 {
        SizeClass::Small
    } else if value <= MAX_U32 {
        SizeClass::Medium
    } else {
        SizeClass::Large
    }
}

/// Key mask of a class.
pub fn mask(c: SizeClass) -> (m: u64)
    ensures
        m == mask_of(c),
{
    match c {
        SizeClass::Small => MAX_U16,
        SizeClass::Medium => MAX_U32,
        SizeClass::Large => MAX_U56,
    }
}

/// Salt left-shift of a class.
pub fn salt_shift(c: SizeClass) -> (s: u64)
    ensures
        s == salt_shift_of(c),
{
    match c {
        SizeClass::Small => 8,
        SizeClass::Medium => 16,
        SizeClass::Large => 32,
    }
}

} // verus!
