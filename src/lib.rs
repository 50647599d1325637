//! Virtual-memory mapping logic of a process address space: the decisions
//! behind `mmap`, `munmap`, `mprotect`, `mremap` and `madvise`, over a
//! verified model of the address space.

pub mod error;
pub mod flags;
pub mod aspace;
pub mod mmap;
pub mod laws;
pub mod xattr;
