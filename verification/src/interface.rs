//! Shared result, error and command types, plus small nibble arithmetic
//! helpers used by the command coders.

use vstd::prelude::*;

verus! {

/// A back-reference copy command: copy `num_bytes` bytes starting `distance`
/// bytes behind the current position (`distance == 1` is the most recent
/// byte). A distance of zero is invalid and is rejected before any coding.
#[derive(Copy, Clone, Debug, PartialEq, Eq, Structural)]
pub struct CopyCommand {
    pub distance: u32,
    pub num_bytes: u32,
}

/// Fatal coding errors. Suspensions are not errors; they are reported through
/// `DivansResult` directly.
#[derive(Copy, Clone, Debug, PartialEq, Eq, Structural)]
pub enum ErrMsg {
    /// The command to encode (or the decode placeholder) had `distance == 0`.
    Distance0NotAllowed,
    /// A shortcut nibble value that no well-formed encoder can produce was
    /// observed while decoding a copy length; the payload tells the branches
    /// apart.
    InternalInconsistencyInCopyLenSubstateCode(u8),
    /// The stream referenced a distance-cache entry that does not resolve;
    /// carries the low and high bytes of the offending resolved value.
    CopyDistanceMnemonicCodeBad(u8, u8),
}

/// Outcome of one invocation of a command coder: success, a cooperative
/// suspension that the caller must satisfy before re-invoking, or a fatal
/// failure.
#[derive(Copy, Clone, Debug, PartialEq, Eq, Structural)]
pub enum DivansResult {
    Success,
    NeedsMoreInput,
    NeedsMoreOutput,
    Failure(ErrMsg),
}

/// Accounting tag handed to the arithmetic coder primitive alongside each
/// nibble; it never influences the coded bytes.
#[derive(Copy, Clone, Debug, PartialEq, Eq, Structural)]
pub enum BillingDesignation {
    CopyCommand(crate::copy::CopySubstate),
}

/// `v` rounded up to the next multiple of four.
pub open spec fn spec_round_up_mod_4(v: int) -> int {
    ((v + 3) / 4) * 4
}

/// Rounds a bit count up to a whole number of nibbles.
pub fn round_up_mod_4(v: u8) -> (r: u8)
    requires
        1 <= v <= 60,
    ensures
        r == spec_round_up_mod_4(v as int),
        v <= r < v + 4,
        r % 4 == 0,
{
    proof {
        assert(1 <= v <= 60 ==> ((((v - 1) as u8) | 3) + 1 == ((v + 3) / 4) * 4 && v <= (((v - 1)
            as u8) | 3) + 1 && (((v - 1) as u8) | 3) < v + 3 && ((((v - 1) as u8) | 3) + 1) % 4
            == 0)) by (bit_vector);
    }
    ((v - 1) | 3) + 1
}

} // verus!
