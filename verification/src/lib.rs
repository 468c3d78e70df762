//! An early-boot memory manager: a dual-ended bump allocator over one
//! contiguous address range (bytes grow forward, pages grow backward),
//! together with a small chaining hash table used by the same bootstrap
//! phase.

pub mod alignment;
pub mod early;
pub mod hashmap;

pub use early::EarlyAllocator;
pub use hashmap::HashMap;
pub use hashmap::Iter;
pub use hashmap::SimpleHasher;

use vstd::prelude::*;

verus! {

/// Errors an allocation call can report.
#[derive(Clone, Copy, Debug, PartialEq, Eq, Structural)]
pub enum AllocError {
    /// The operation is permanently unimplemented at this allocator tier.
    Unsupported,
    /// The byte and page cursors would meet or cross.
    RegionExhausted,
}

} // verus!
