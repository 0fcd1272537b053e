//! The order in which accesses to shared memory take effect for the other
//! side of a queue.
//!
//! What fills a buffer or a descriptor must be visible before the write
//! that hands it over, and the side that takes it over must see that write
//! before it trusts anything else. The queues call [`memory_barrier`]
//! before each write that hands over and after each read that takes over.

use vstd::prelude::*;

verus! {

/// Keeps the accesses to memory before it before those after it, by
/// `std::sync::atomic::fence` with both acquire and release ordering.
/// Nothing is claimed of it: it returns nothing and changes no value of the
/// program.
#[verifier::external_body]
pub(crate) fn memory_barrier() {
    std::sync::atomic::fence(std::sync::atomic::Ordering::AcqRel);
}

} // verus!
