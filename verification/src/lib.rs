//! Verified core of an internet-scale TCP port scanner: a fixed-capacity
//! slot allocator for in-flight connection attempts, a full-period random
//! enumerator of the IPv4 address space, and the admission/completion
//! decision logic of the scan loop.
pub mod entry_alloc;
pub mod ip_iterator;
pub mod scan;

use vstd::prelude::*;

verus! {

/// Number of addresses in the IPv4 space: the modulus of the enumerator.
pub const ADDRESS_SPACE: u64 = 0x1_0000_0000;

pub open spec fn address_space() -> nat {
    ADDRESS_SPACE as nat
}

} // verus!
