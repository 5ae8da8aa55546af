//! The memory translation table: a fixed first-level table of access-key
//! entries, each pointing (by arena offset) at a second-level table of
//! physical page addresses kept in the buddy allocator's arena.

use vstd::prelude::*;

use crate::L1_ENTRIES;

verus! {

/// Shift of the first-level table: `2^20` entries.
pub const L1_SIZE: u8 = 20;

/// One first-level entry, the fixed 24-byte layout `key, offset, size,
/// base_va`. `size == 0` means the slot is absent; `offset` is the
/// arena index of the entry's second-level table; `size` is the
/// region's page count; `base_va` the region's first virtual address.
#[derive(Clone, Copy, Debug, PartialEq, Eq, Structural)]
pub struct L1Entry {
    pub key: u32,
    pub offset: u32,
    pub size: u32,
    pub base_va: u64,
}

impl L1Entry {
    pub fn new(key: u32, offset: u32, size: u32, base_va: u64) -> (e: L1Entry)
        ensures
            e.key == key,
            e.offset == offset,
            e.size == size,
            e.base_va == base_va,
    {
        L1Entry { key, offset, size, base_va }
    }

    pub fn key(&self) -> (r: u32)
        ensures
            r == self.key,
    {
        self.key
    }

    pub fn offset(&self) -> (r: u32)
        ensures
            r == self.offset,
    {
        self.offset
    }

    pub fn size(&self) -> (r: u32)
        ensures
            r == self.size,
    {
        self.size
    }

    pub fn base_va(&self) -> (r: u64)
        ensures
            r == self.base_va,
    {
        self.base_va
    }
}

/// One second-level entry: the physical address of one huge page.
#[derive(Clone, Copy, Debug, PartialEq, Eq, Structural)]
pub struct L2Entry {
    pub pa: u64,
}

impl L2Entry {
    pub fn pa(&self) -> (r: u64)
        ensures
            r == self.pa,
    {
        self.pa
    }

    pub fn set_pa(&mut self, pa: u64)
        ensures
            final(self).pa == pa,
    {
        self.pa = pa;
    }
}

/// Handle to one allocated second-level table: `len` entries starting
/// at arena index `offset`, inside a buddy block of order `order`.
pub struct L2Table {
    pub offset: usize,
    pub len: usize,
    pub order: usize,
}

/// The first-level table. It is pure storage; the device walks it and
/// the buddy allocator's arena together.
pub struct Mtt {
    pub l1_table: Vec<L1Entry>,
}

impl Mtt {
    pub open spec fn wf(self) -> bool {
        self.l1_table.len() == L1_ENTRIES
    }

    /// A table of `2^20` absent entries.
    pub fn new() -> (m: Mtt)
        ensures
            m.wf(),
            forall|i: int| 0 <= i < L1_ENTRIES ==> (#[trigger] m.l1_table[i]).size == 0,
    {
        let mut l1_table: Vec<L1Entry> = Vec::new();
        let mut i: usize = 0;
        while i < L1_ENTRIES
            invariant
                i <= L1_ENTRIES,
                l1_table.len() == i,
                forall|j: int| 0 <= j < i ==> (#[trigger] l1_table[j]).size == 0,
            decreases L1_ENTRIES - i,
        {
            l1_table.push(L1Entry { key: 0, offset: 0, size: 0, base_va: 0 });
            i += 1;
        }
        Mtt { l1_table }
    }

    pub fn entries(&self) -> (r: &Vec<L1Entry>)
        ensures
            r == self.l1_table,
    {
        &self.l1_table
    }

    pub fn entries_mut(&mut self) -> (r: &mut Vec<L1Entry>)
        ensures
            *r == old(self).l1_table,
            final(self).l1_table == *final(r),
    {
        &mut self.l1_table
    }
}

} // verus!
