//! Page-size constants and page arithmetic.

use vstd::prelude::*;

verus! {

/// Size of one page of physical memory, in bytes.
pub const PGSIZE: u64 = 4096;

/// The smallest multiple of `PGSIZE` that is at least `sz`.
pub open spec fn round_up(sz: int) -> int {
    if sz % (PGSIZE as int) == 0 {
        sz
    } else {
        sz + (PGSIZE as int) - sz % (PGSIZE as int)
    }
}

/// Rounds `sz` up to the next page boundary.
pub fn pgroundup(sz: u64) -> (r: u64)
    requires
        sz + PGSIZE - 1 <= u64::MAX,
    ensures
        r as int == round_up(sz as int),
        r % PGSIZE == 0,
        sz <= r,
        r < sz + PGSIZE,
{
    let s = sz + (PGSIZE - 1);
    let r = s & !(PGSIZE - 1);
    assert(s & !4095u64 == (s - s % 4096) as u64) by (bit_vector);
    r
}

} // verus!
