use vstd::prelude::*;

verus! {

/// Signed distance, in milliseconds, from `earlier` to `later` on the 32-bit
/// wrapping clock: the representative of `later - earlier` modulo 2^32 that
/// lies in `[-2^31, 2^31)`.
pub open spec fn spec_timediff(later: u32, earlier: u32) -> int {
    let d = (later as int - earlier as int) % 0x1_0000_0000;
    if d >= 0x8000_0000 {
        d - 0x1_0000_0000
    } else {
        d
    }
}

/// `v` clamped from below by `lower`, then from above by `upper`.
pub open spec fn spec_bound(lower: int, v: int, upper: int) -> int {
    let raised = if v < lower { lower } else { v };
    if raised > upper {
        upper
    } else {
        raised
    }
}

/// Time elapsed from `earlier` to `later`, tolerant of clock wrap-around.
pub fn timediff(later: u32, earlier: u32) -> (d: i32)
    ensures
        d as int == spec_timediff(later, earlier),
{
    let w: u32 = later.wrapping_sub(earlier);
    if w >= 0x8000_0000u32 {
        let below: u32 = 0xffff_ffffu32 - w;
        -1i32 - (below as i32)
    } else {
        w as i32
    }
}

/// Clamps `v` into `[lower, upper]`; the upper bound wins when the two cross.
pub fn bound(lower: u32, v: u32, upper: u32) -> (r: u32)
    ensures
        r as int == spec_bound(lower as int, v as int, upper as int),
{
    let raised: u32 = if v < lower { lower } else { v };
    if raised > upper {
        upper
    } else {
        raised
    }
}

} // verus!
