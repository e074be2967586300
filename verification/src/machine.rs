//! Thirty-two-bit integers that wrap around.

use vstd::prelude::*;

verus! {

/// A number wrapped into the range of a `u32`.
pub open spec fn unsigned32(x: int) -> int {
    x % 0x1_0000_0000
}

/// A number wrapped into the range of an `i32`.
pub open spec fn signed32(x: int) -> int {
    let y = x % 0x1_0000_0000;
    if y < 0x8000_0000 {
        y
    } else {
        y - 0x1_0000_0000
    }
}

/// A number wrapped into the range of an `i32`.
pub fn to_signed(x: i64) -> (r: i32)
    requires
        -0x10_0000_0000 <= x <= 0x10_0000_0000,
    ensures
        r == signed32(x as int),
{
    let y: i64 = (x + 0x10_0000_0000) % 0x1_0000_0000;
    assert(y == x as int % 0x1_0000_0000);
    if y < 0x8000_0000 {
        y as i32
    } else {
        (y - 0x1_0000_0000) as i32
    }
}

/// The bits of a signed number, read without a sign.
pub fn to_unsigned(x: i32) -> (r: u32)
    ensures
        r == unsigned32(x as int),
{
    if x < 0 {
        (x as i64 + 0x1_0000_0000) as u32
    } else {
        x as u32
    }
}

/// Wrapping keeps what fits, and changes anything else by a multiple of 2^32.
pub proof fn law_wrapping(x: int)
    ensures
        -0x8000_0000 <= signed32(x) < 0x8000_0000,
        0 <= unsigned32(x) < 0x1_0000_0000,
        -0x8000_0000 <= x < 0x8000_0000 ==> signed32(x) == x,
        0 <= x < 0x1_0000_0000 ==> unsigned32(x) == x,
        (x - signed32(x)) % 0x1_0000_0000 == 0,
        (x - unsigned32(x)) % 0x1_0000_0000 == 0,
{
}

} // verus!
