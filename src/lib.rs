//! A physical page-frame allocator for a small teaching kernel, together with
//! the plain-data pieces around it: page arithmetic, the memory layout, the
//! byte-string routines of the kernel and the user library's C strings.

pub mod echo;
pub mod kalloc;
pub mod laws;
pub mod memlayout;
pub mod proc;
pub mod riscv;
pub mod string;
pub mod sysproc;
pub mod ulib;
