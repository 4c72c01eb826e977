//! Colours of the treemap cells.

use vstd::prelude::*;

verus! {

/// The hue, in whole degrees, that the treemap gives to entry `id`: the id
/// mixed by a multiplicative hash.
pub open spec fn hue_spec(id: u32) -> u32 {
    let h = id.wrapping_mul(2654435761u32);
    (h ^ (h >> 16u32)) % 360
}

/// The hue of entry `id`: see [`hue_spec`].
pub fn hue_degrees(id: u32) -> (d: u32)
    ensures
        d == hue_spec(id),
        d < 360,
{
    let mut h = id.wrapping_mul(2654435761u32);
    h = h ^ (h >> 16u32);
    h % 360
}

} // verus!
