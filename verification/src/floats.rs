//! Sign tests on IEEE 754 binary64 bit patterns. The layout is documented
//! with `to_bits` on doubles: sign bit 63, exponent bits 62..52, fraction
//! bits 51..0. A NaN compares false against everything; both zeros compare
//! equal to zero. These tests decide the engine's pre-checks and its choice
//! of interval half in verified code.

use vstd::prelude::*;

verus! {

/// Whether the bits encode a zero of either sign.
pub open spec fn fbits_is_zero(b: u64) -> bool {
    b & 0x7fff_ffff_ffff_ffff == 0
}

/// Whether the bits encode a NaN: exponent all ones, fraction nonzero.
pub open spec fn fbits_is_nan(b: u64) -> bool {
    b & 0x7ff0_0000_0000_0000 == 0x7ff0_0000_0000_0000 && b & 0x000f_ffff_ffff_ffff != 0
}

/// Whether the encoded double compares `<= 0.0`: not a NaN, and either the
/// sign bit is set or the value is a zero.
pub open spec fn fbits_le_zero(b: u64) -> bool {
    !fbits_is_nan(b) && (b & 0x8000_0000_0000_0000 != 0 || fbits_is_zero(b))
}

/// Whether the encoded double compares `> 0.0`: not a NaN, sign bit clear,
/// and not a zero.
pub open spec fn fbits_gt_zero(b: u64) -> bool {
    !fbits_is_nan(b) && b & 0x8000_0000_0000_0000 == 0 && !fbits_is_zero(b)
}

/// Decides `x == 0.0` on the bit pattern.
pub fn is_zero_bits(b: u64) -> (r: bool)
    ensures
        r == fbits_is_zero(b),
{
    b & 0x7fff_ffff_ffff_ffff == 0
}

/// Decides `x <= 0.0` on the bit pattern.
pub fn le_zero_bits(b: u64) -> (r: bool)
    ensures
        r == fbits_le_zero(b),
{
    let nan = b & 0x7ff0_0000_0000_0000 == 0x7ff0_0000_0000_0000 && b & 0x000f_ffff_ffff_ffff
        != 0;
    !nan && (b & 0x8000_0000_0000_0000 != 0 || b & 0x7fff_ffff_ffff_ffff == 0)
}

/// Decides `x > 0.0` on the bit pattern.
pub fn gt_zero_bits(b: u64) -> (r: bool)
    ensures
        r == fbits_gt_zero(b),
{
    let nan = b & 0x7ff0_0000_0000_0000 == 0x7ff0_0000_0000_0000 && b & 0x000f_ffff_ffff_ffff
        != 0;
    !nan && b & 0x8000_0000_0000_0000 == 0 && b & 0x7fff_ffff_ffff_ffff != 0
}

} // verus!
