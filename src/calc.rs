use vstd::prelude::*;

verus! {

/// `x` limited to the range `[min, max]`; a value below `min` gives `min`,
/// one above `max` gives `max`.
pub open spec fn clamp(x: int, min: int, max: int) -> int {
    if x < min {
        min
    } else if x > max {
        max
    } else {
        x
    }
}

/// Clamps `x` into `[min, max]` (the lower bound is tested first).
#[allow(non_snake_case)]
pub fn CMID(x: i32, min: i32, max: i32) -> (r: i32)
    ensures
        r == clamp(x as int, min as int, max as int),
{
    if x < min {
        min
    } else if x > max {
        max
    } else {
        x
    }
}

/// Exchanges the values behind two references.
pub fn swap(x1: &mut usize, x2: &mut usize)
    ensures
        *final(x1) == *old(x2),
        *final(x2) == *old(x1),
{
    let x = *x1;
    *x1 = *x2;
    *x2 = x;
}

} // verus!
