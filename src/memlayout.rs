//! The physical memory layout of the machine.

use vstd::prelude::*;

verus! {

/// Where the kernel is loaded, and where the RAM used by the kernel begins.
pub const KERNBASE: u64 = 0x8000_0000;

/// The top of usable physical memory: 128 MiB above `KERNBASE`.
pub const PHYSTOP: u64 = KERNBASE + 128 * 1024 * 1024;

} // verus!
