//! Host-side core of a software RDMA device model: a huge-page slab
//! allocator for descriptor ring backings, a buddy allocator for
//! second-level translation tables, a two-level memory translation
//! table (MTT), fixed-capacity descriptor rings, and the device
//! orchestration that registers memory regions and resolves access
//! keys back to physical page addresses.

pub mod allocator;
pub mod device;
pub mod mtt;
pub mod ring;
pub mod v2p;
pub mod verbs;

use vstd::prelude::*;

verus! {

/// Shift of a huge page: pages are `2^21` bytes (2MB).
pub const HUGE_PAGE_2MB: u8 = 21;

/// Shift of a ring's entry count: each ring holds `2^10` descriptors.
pub const RING_SIZE: u8 = 10;

/// Shift of a descriptor: each descriptor is `2^5` bytes.
pub const DESC_SIZE: u8 = 5;

/// Bytes in one huge page: `2^21`.
pub const PAGE_BYTES: usize = 2097152;

/// Bytes in one ring-backing slot, one full descriptor array:
/// `2^10` descriptors of `2^5` bytes each.
pub const SLOT_BYTES: usize = 32768;

/// Descriptors in one ring: `2^10`.
pub const RING_ENTRIES: usize = 1024;

/// Ring-backing slots carved out of one huge page:
/// `PAGE_BYTES / SLOT_BYTES`.
pub const SLOTS_PER_PAGE: usize = 64;

/// Entries of the first-level translation table: `2^20`.
pub const L1_ENTRIES: usize = 1048576;

/// Failure of a memory allocator: the backing store is exhausted or
/// the operating system refused a mapping.
#[derive(Clone, Copy, Debug, PartialEq, Eq, Structural)]
pub enum AllocError {
    OutOfMemory,
}

/// Failure of a ring operation: the ring lacks capacity right now and
/// the caller should retry later.
#[derive(Clone, Copy, Debug, PartialEq, Eq, Structural)]
pub enum RingError {
    WouldBlock,
}

/// Failure of virtual-to-physical address translation.
#[derive(Clone, Copy, Debug, PartialEq, Eq, Structural)]
pub enum TranslationError {
    Unmapped,
}

/// Failure of a device-level operation.
#[derive(Clone, Copy, Debug, PartialEq, Eq, Structural)]
pub enum DeviceError {
    /// An allocator was exhausted or the key space ran out.
    OutOfMemory,
    /// A chunk of the buffer being registered has no physical backing.
    TranslationFailed,
    /// The key does not name a currently registered region.
    UnknownRegion,
}

} // verus!
