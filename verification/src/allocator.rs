//! The huge-page slab allocator: maps 2MB pages and carves each one
//! into fixed-size slots that back one descriptor ring each. Pages are
//! never unmapped once created, since they back live hardware rings.

use vstd::prelude::*;
use vstd::std_specs::vec::vec_index_mut;

use crate::{AllocError, HUGE_PAGE_2MB, PAGE_BYTES, SLOTS_PER_PAGE, SLOT_BYTES};

verus! {

#[verifier::external_type_specification]
#[verifier::external_body]
pub struct ExMmapMut(memmap2::MmapMut);

/// The byte contents of an anonymous mapping, as this allocator
/// accounts for them through the trusted mapping operations below.
pub uninterp spec fn mmap_bytes(m: memmap2::MmapMut) -> Seq<u8>;

/// Relies on memmap2::MmapOptions::map_anon: on success the result is an
/// anonymous, writable mapping whose Deref target is exactly `len` bytes,
/// backed by huge pages when `huge` asks for them.
#[verifier::external_body]
fn map_anon(len: usize, huge: bool) -> (r: Result<memmap2::MmapMut, AllocError>)
    ensures
        r matches Ok(m) ==> mmap_bytes(m).len() == len,
{
    let mut opts = memmap2::MmapOptions::new();
    opts.len(len);
    if huge {
        opts.huge(Some(HUGE_PAGE_2MB));
    }
    match opts.map_anon() {
        Ok(m) => Ok(m),
        Err(_) => Err(AllocError::OutOfMemory),
    }
}

/// Relies on memmap2::MmapMut::lock: locks the mapping into RAM and
/// reports whether the call succeeded. The mapping's bytes are not
/// touched.
#[verifier::external_body]
fn mmap_lock(m: &memmap2::MmapMut) -> (ok: bool)
{
    m.lock().is_ok()
}

/// Maps one pinned page for the slab: a huge-page mapping is requested
/// first and an ordinary anonymous mapping of the same size stands in
/// where the platform offers no huge pages; a mapping that cannot be
/// locked into RAM is refused, since the hardware reaches ring memory
/// by physical address and the pages must never be swapped.
fn map_pinned_page(len: usize) -> (r: Result<memmap2::MmapMut, AllocError>)
    ensures
        r matches Ok(m) ==> mmap_bytes(m).len() == len,
{
    let m = match map_anon(len, true) {
        Ok(m) => m,
        Err(_) => match map_anon(len, false) {
            Ok(m) => m,
            Err(e) => {
                return Err(e);
            },
        },
    };
    if mmap_lock(&m) {
        Ok(m)
    } else {
        Err(AllocError::OutOfMemory)
    }
}

/// Relies on memmap2::MmapMut's DerefMut to the mapped bytes and on the
/// slice `fill` reached through it: every byte of `m[start..end]` becomes
/// zero and no other byte of the mapping changes.
#[verifier::external_body]
fn mmap_fill_zero(m: &mut memmap2::MmapMut, start: usize, end: usize)
    requires
        start <= end <= mmap_bytes(*old(m)).len(),
    ensures
        mmap_bytes(*final(m)).len() == mmap_bytes(*old(m)).len(),
        forall|i: int|
            0 <= i < mmap_bytes(*old(m)).len() && !(start <= i < end) ==> #[trigger] mmap_bytes(
                *final(m),
            )[i] == mmap_bytes(*old(m))[i],
        forall|i: int| start <= i < end ==> #[trigger] mmap_bytes(*final(m))[i] == 0u8,
{
    m[start..end].fill(0);
}

/// Relies on memmap2::MmapMut's DerefMut to the mapped bytes: writes one
/// byte of the mapping in place.
#[verifier::external_body]
fn mmap_write_byte(m: &mut memmap2::MmapMut, i: usize, v: u8)
    requires
        i < mmap_bytes(*old(m)).len(),
    ensures
        mmap_bytes(*final(m)) == mmap_bytes(*old(m)).update(i as int, v),
{
    m[i] = v;
}

/// Relies on memmap2::MmapMut's Deref to the mapped bytes: reads one byte
/// of the mapping.
#[verifier::external_body]
fn mmap_read_byte(m: &memmap2::MmapMut, i: usize) -> (r: u8)
    requires
        i < mmap_bytes(*m).len(),
    ensures
        r == mmap_bytes(*m)[i as int],
{
    m[i]
}

/// The slot's whole byte range inside its page holds zeroes.
pub open spec fn slot_zeroed(bs: Seq<u8>, sn: int) -> bool {
    forall|i: int|
        sn * (SLOT_BYTES as int) <= i < (sn + 1) * (SLOT_BYTES as int) ==> #[trigger] bs[i] == 0u8
}

/// One pinned huge page together with its free-slot list. A slot index
/// is live exactly while it is absent from `free_list`.
pub struct Page {
    pub mmap: memmap2::MmapMut,
    pub free_list: Vec<usize>,
}

impl Page {
    pub open spec fn bytes(self) -> Seq<u8> {
        mmap_bytes(self.mmap)
    }

    pub open spec fn is_free(self, sn: int) -> bool {
        exists|k: int| 0 <= k < self.free_list.len() && self.free_list[k] == sn
    }

    /// Well-formedness: the page is exactly one huge page of bytes, the
    /// free list holds distinct in-range slot indices, and every free
    /// slot is zero-filled, so reallocation can never expose stale data.
    pub open spec fn wf(self) -> bool {
        &&& self.bytes().len() == PAGE_BYTES
        &&& forall|k: int| 0 <= k < self.free_list.len() ==> (#[trigger] self.free_list[k]) < SLOTS_PER_PAGE
        &&& forall|k1: int, k2: int|
            0 <= k1 < k2 < self.free_list.len() ==> self.free_list[k1] != self.free_list[k2]
        &&& forall|k: int|
            0 <= k < self.free_list.len() ==> slot_zeroed(self.bytes(), (#[trigger] self.free_list[k]) as int)
    }

    /// Wraps a fresh anonymous mapping as a page with every slot free.
    /// The whole page is zeroed up front so the free-slot invariant
    /// holds from the start.
    pub fn new(mmap: memmap2::MmapMut) -> (p: Page)
        requires
            mmap_bytes(mmap).len() == PAGE_BYTES,
        ensures
            p.wf(),
            p.free_list.len() == SLOTS_PER_PAGE,
            forall|sn: int| 0 <= sn < SLOTS_PER_PAGE ==> p.is_free(sn),
    {
        let mut mmap = mmap;
        mmap_fill_zero(&mut mmap, 0, PAGE_BYTES);
        let mut free_list: Vec<usize> = Vec::new();
        let mut sn: usize = 0;
        while sn < SLOTS_PER_PAGE
            invariant
                sn <= SLOTS_PER_PAGE,
                free_list.len() == sn,
                forall|k: int| 0 <= k < sn ==> #[trigger] free_list[k] == k,
                mmap_bytes(mmap).len() == PAGE_BYTES,
                forall|i: int| 0 <= i < PAGE_BYTES ==> #[trigger] mmap_bytes(mmap)[i] == 0u8,
            decreases SLOTS_PER_PAGE - sn,
        {
            free_list.push(sn);
            sn += 1;
        }
        let p = Page { mmap, free_list };
        assert forall|s: int| 0 <= s < SLOTS_PER_PAGE implies p.is_free(s) by {
            assert(p.free_list[s] == s);
        }
        p
    }

    /// Pops a free slot. The returned slot is in range, was free, is now
    /// live, and its bytes are all zero.
    pub fn alloc_slot(&mut self) -> (r: Option<usize>)
        requires
            old(self).wf(),
        ensures
            final(self).wf(),
            final(self).mmap == old(self).mmap,
            match r {
                Some(sn) => {
                    &&& old(self).free_list.len() > 0
                    &&& sn == old(self).free_list[old(self).free_list.len() - 1]
                    &&& final(self).free_list@ == old(self).free_list@.drop_last()
                    &&& sn < SLOTS_PER_PAGE
                    &&& old(self).is_free(sn as int)
                    &&& !final(self).is_free(sn as int)
                    &&& slot_zeroed(final(self).bytes(), sn as int)
                },
                None => {
                    &&& old(self).free_list.len() == 0
                    &&& final(self).free_list@ == old(self).free_list@
                },
            },
    {
        let r = self.free_list.pop();
        if let Some(sn) = r {
            let ghost pre = *old(self);
            assert(pre.is_free(sn as int)) by {
                assert(pre.free_list[pre.free_list.len() - 1] == sn);
            }
            assert(!self.is_free(sn as int)) by {
                assert forall|k: int| 0 <= k < self.free_list.len() implies self.free_list[k] != sn by {
                    assert(pre.free_list[k] != pre.free_list[pre.free_list.len() - 1]);
                }
            }
        }
        r
    }

    /// Validates and releases one slot: a slot index out of range or one
    /// that is already free is refused with `false` and nothing changes.
    /// On success the slot's bytes are zeroed before it rejoins the free
    /// list, so no stale data can cross a reuse.
    pub fn dealloc(&mut self, sn: usize) -> (ok: bool)
        requires
            old(self).wf(),
        ensures
            final(self).wf(),
            ok == (sn < SLOTS_PER_PAGE && !old(self).is_free(sn as int)),
            !ok ==> *final(self) == *old(self),
            ok ==> {
                &&& final(self).free_list@ == old(self).free_list@.push(sn)
                &&& final(self).is_free(sn as int)
                &&& slot_zeroed(final(self).bytes(), sn as int)
                &&& final(self).bytes().len() == PAGE_BYTES
                &&& forall|i: int|
                    0 <= i < PAGE_BYTES && !(sn * (SLOT_BYTES as int) <= i < (sn + 1) * (
                    SLOT_BYTES as int)) ==> #[trigger] final(self).bytes()[i] == old(
                        self,
                    ).bytes()[i]
            },
    {
        if sn >= SLOTS_PER_PAGE {
            return false;
        }
        if self.free_list_has(sn) {
            return false;
        }
        let ghost pre = *old(self);
        mmap_fill_zero(&mut self.mmap, sn * SLOT_BYTES, (sn + 1) * SLOT_BYTES);
        self.free_list.push(sn);
        assert(self.is_free(sn as int)) by {
            assert(self.free_list[self.free_list.len() - 1] == sn);
        }
        assert forall|k: int|
            0 <= k < self.free_list.len() implies slot_zeroed(
            self.bytes(),
            (#[trigger] self.free_list[k]) as int,
        ) by {
            let f = self.free_list[k] as int;
            if k < pre.free_list.len() {
                assert(!pre.is_free(sn as int));
                assert(pre.free_list[k] == f);
                assert(f != sn);
                assert(slot_zeroed(pre.bytes(), f));
                assert forall|i: int|
                    f * (SLOT_BYTES as int) <= i < (f + 1) * (SLOT_BYTES as int) implies #[trigger] self.bytes()[i] == 0u8 by {
                    assert(!(sn * (SLOT_BYTES as int) <= i < (sn + 1) * (SLOT_BYTES as int)));
                    assert(pre.bytes()[i] == 0u8);
                }
            } else {
                assert(f == sn);
            }
        }
        true
    }

    fn free_list_has(&self, sn: usize) -> (b: bool)
        ensures
            b == self.is_free(sn as int),
    {
        let mut k: usize = 0;
        while k < self.free_list.len()
            invariant
                k <= self.free_list.len(),
                forall|j: int| 0 <= j < k ==> self.free_list[j] != sn,
            decreases self.free_list.len() - k,
        {
            if self.free_list[k] == sn {
                return true;
            }
            k += 1;
        }
        false
    }

    pub fn has_free_slot(&self) -> (b: bool)
        ensures
            b == (self.free_list.len() > 0),
    {
        !self.free_list.is_empty()
    }

    /// The largest slot index a page can hand out.
    pub fn slot_num_max(&self) -> (n: usize)
        ensures
            n == SLOTS_PER_PAGE - 1,
    {
        SLOTS_PER_PAGE - 1
    }

    /// Bytes in one slot: exactly one ring's descriptor array.
    pub fn slot_size() -> (n: usize)
        ensures
            n == SLOT_BYTES,
    {
        SlotRb::size()
    }
}

/// The one slot kind the slab carves: backing for a full descriptor
/// ring.
pub struct SlotRb;

impl SlotRb {
    /// Bytes one ring-backing slot takes: the descriptor size times the
    /// ring's entry count.
    pub fn size() -> (n: usize)
        ensures
            n == SLOT_BYTES,
    {
        32 * 1024
    }
}

/// An exclusive handle to one allocated ring-backing slot.
pub struct RingBuf {
    pub page: usize,
    pub slot: usize,
}

impl RingBuf {
    pub fn new(page: usize, slot: usize) -> (r: RingBuf)
        ensures
            r.page == page,
            r.slot == slot,
    {
        RingBuf { page, slot }
    }

    /// Slab-relative base address of the slot: the address the hardware
    /// side of a ring is handed. Back-references into slab memory are
    /// kept slab-relative; only a translation boundary would turn them
    /// into platform physical addresses.
    pub open spec fn addr_spec(self) -> int {
        self.page * (PAGE_BYTES as int) + self.slot * (SLOT_BYTES as int)
    }

    pub fn addr(&self) -> (a: u64)
        requires
            self.page < 0x80000000,
            self.slot < SLOTS_PER_PAGE,
        ensures
            a == self.addr_spec(),
    {
        proof {
            assert((self.page as int) * (PAGE_BYTES as int) < 0x80000000int * (PAGE_BYTES as int))
                by (nonlinear_arith)
                requires
                    self.page < 0x80000000,
            ;
            assert((self.slot as int) * (SLOT_BYTES as int) < 64int * (SLOT_BYTES as int))
                by (nonlinear_arith)
                requires
                    self.slot < 64,
            ;
        }
        (self.page as u64) * (PAGE_BYTES as u64) + (self.slot as u64) * (SLOT_BYTES as u64)
    }
}

/// What one successful slot allocation does to the page set: the served
/// slot was free, is now live and zero-filled; every other page is
/// untouched and none is ever removed; at most one fresh page is
/// mapped, exactly when every old page was full.
pub open spec fn alloc_effect(pre: RbAllocator, post: RbAllocator, rb: RingBuf) -> bool {
    &&& post.valid_buf(rb)
    &&& pre.pages.len() <= post.pages.len() <= pre.pages.len() + 1
    &&& (post.pages.len() == pre.pages.len() + 1) == pre.all_full()
    &&& slot_zeroed(post.pages[rb.page as int].bytes(), rb.slot as int)
    &&& forall|p: int|
        0 <= p < pre.pages.len() && p != rb.page ==> post.pages[p] == pre.pages[p]
    &&& rb.page < pre.pages.len() ==> {
        &&& pre.pages[rb.page as int].is_free(rb.slot as int)
        &&& post.pages[rb.page as int].bytes() == pre.pages[rb.page as int].bytes()
        &&& post.pages[rb.page as int].free_list.len() + 1 == pre.pages[
            rb.page as int
        ].free_list.len()
        &&& forall|s: int|
            s != rb.slot ==> #[trigger] post.pages[rb.page as int].is_free(s) == pre.pages[
                rb.page as int
            ].is_free(s)
    }
    &&& rb.page >= pre.pages.len() ==> {
        &&& rb.page == pre.pages.len()
        &&& post.pages[rb.page as int].free_list.len() == SLOTS_PER_PAGE - 1
    }
}

/// The slab allocator for ring backings: a growable set of huge pages,
/// each carved into `SLOTS_PER_PAGE` slots.
pub struct RbAllocator {
    pub pages: Vec<Page>,
}

impl RbAllocator {
    pub open spec fn wf(self) -> bool {
        &&& self.pages.len() <= 0x80000000
        &&& forall|p: int| 0 <= p < self.pages.len() ==> (#[trigger] self.pages[p]).wf()
    }

    /// A handle is valid while it names a live (allocated) slot of an
    /// existing page.
    pub open spec fn valid_buf(self, rb: RingBuf) -> bool {
        &&& rb.page < self.pages.len()
        &&& rb.slot < SLOTS_PER_PAGE
        &&& !self.pages[rb.page as int].is_free(rb.slot as int)
    }

    /// No page has a free slot left.
    pub open spec fn all_full(self) -> bool {
        forall|p: int| 0 <= p < self.pages.len() ==> (#[trigger] self.pages[p]).free_list.len() == 0
    }

    /// At least two distinct free slots exist across the pages.
    pub open spec fn has_two_free(self) -> bool {
        exists|p1: int, s1: int, p2: int, s2: int|
            0 <= p1 < self.pages.len() && 0 <= p2 < self.pages.len()
                && #[trigger] self.pages[p1].is_free(s1) && #[trigger] self.pages[p2].is_free(s2)
                && !(p1 == p2 && s1 == s2)
    }

    pub fn new() -> (r: RbAllocator)
        ensures
            r.wf(),
            r.pages.len() == 0,
    {
        RbAllocator { pages: Vec::new() }
    }

    /// Maps, pins and zeroes one new huge page and appends it with every
    /// slot free. Fails only when the mapping itself fails.
    fn alloc_pg(&mut self) -> (r: Result<usize, AllocError>)
        requires
            old(self).wf(),
        ensures
            final(self).wf(),
            match r {
                Ok(idx) => {
                    &&& idx == old(self).pages.len()
                    &&& final(self).pages.len() == old(self).pages.len() + 1
                    &&& forall|p: int|
                        0 <= p < old(self).pages.len() ==> final(self).pages[p] == old(
                            self,
                        ).pages[p]
                    &&& final(self).pages[idx as int].free_list.len() == SLOTS_PER_PAGE
                },
                Err(e) => {
                    &&& e == AllocError::OutOfMemory
                    &&& *final(self) == *old(self)
                },
            },
    {
        if self.pages.len() >= 0x80000000 {
            return Err(AllocError::OutOfMemory);
        }
        let mmap = match map_pinned_page(PAGE_BYTES) {
            Ok(m) => m,
            Err(e) => {
                return Err(e);
            },
        };
        let page = Page::new(mmap);
        let idx = self.pages.len();
        self.pages.push(page);
        Ok(idx)
    }

    /// Allocates one zero-filled ring-backing slot: the first page with a
    /// free slot serves it; when none has one, a new page is mapped.
    /// `Err(OutOfMemory)` comes exactly when every existing page was full
    /// and the operating system refused a new mapping; the allocator is
    /// then unchanged.
    #[verifier::loop_isolation(false)]
    pub fn alloc_rb(&mut self) -> (r: Result<RingBuf, AllocError>)
        requires
            old(self).wf(),
        ensures
            final(self).wf(),
            match r {
                Ok(rb) => alloc_effect(*old(self), *final(self), rb),
                Err(e) => {
                    &&& e == AllocError::OutOfMemory
                    &&& *final(self) == *old(self)
                    &&& old(self).all_full()
                },
            },
    {
        let n = self.pages.len();
        let mut p: usize = 0;
        while p < n
            invariant
                *self == *old(self),
                n == self.pages.len(),
                self.wf(),
                p <= n,
                forall|q: int| 0 <= q < p ==> (#[trigger] self.pages[q]).free_list.len() == 0,
            decreases n - p,
        {
            if self.pages[p].has_free_slot() {
                let ghost oldpg = self.pages[p as int];
                let pg = vec_index_mut(&mut self.pages, p);
                let sn_opt = pg.alloc_slot();
                let sn = sn_opt.unwrap();
                proof {
                    let newpg = self.pages[p as int];
                    assert forall|s: int|
                        s != sn as int implies #[trigger] newpg.is_free(s) == oldpg.is_free(s) by {
                        if oldpg.is_free(s) {
                            let k = choose|k: int|
                                0 <= k < oldpg.free_list.len() && oldpg.free_list[k] == s;
                            assert(oldpg.free_list[oldpg.free_list.len() - 1] == sn);
                            assert(k < oldpg.free_list.len() - 1);
                            assert(newpg.free_list[k] == s);
                        }
                        if newpg.is_free(s) {
                            let k = choose|k: int|
                                0 <= k < newpg.free_list.len() && newpg.free_list[k] == s;
                            assert(oldpg.free_list[k] == s);
                        }
                    }
                }
                return Ok(RingBuf { page: p, slot: sn });
            }
            p += 1;
        }
        let idx = match self.alloc_pg() {
            Ok(i) => i,
            Err(e) => {
                return Err(e);
            },
        };
        let pg = vec_index_mut(&mut self.pages, idx);
        let sn_opt = pg.alloc_slot();
        let sn = sn_opt.unwrap();
        Ok(RingBuf { page: idx, slot: sn })
    }

    /// Allocates one zero-filled slot and wraps it as an empty typed
    /// ring: the checked conversion from the slot's raw bytes to a
    /// descriptor array.
    pub fn alloc_ring_buf<Desc: crate::ring::Descriptor>(&mut self) -> (r: Result<
        crate::ring::RdmaRing<Desc>,
        AllocError,
    >)
        requires
            old(self).wf(),
        ensures
            final(self).wf(),
            match r {
                Ok(ring) => {
                    &&& ring.wf()
                    &&& ring.pending() == Seq::<Desc>::empty()
                    &&& ring.ctx.head == 0 && ring.ctx.tail == 0
                    &&& alloc_effect(*old(self), *final(self), ring.backing)
                },
                Err(e) => {
                    &&& e == AllocError::OutOfMemory
                    &&& *final(self) == *old(self)
                    &&& old(self).all_full()
                },
            },
    {
        let rb = match self.alloc_rb() {
            Ok(rb) => rb,
            Err(e) => {
                return Err(e);
            },
        };
        Ok(crate::ring::RdmaRing::new(rb))
    }

    /// Validates and releases a buffer handle. A foreign or stale handle
    /// (page out of range, slot out of range, or slot already free) is
    /// refused with `false` and nothing changes; on success the slot is
    /// zeroed and returned to its page's free list.
    pub fn dealloc(&mut self, rb: RingBuf) -> (ok: bool)
        requires
            old(self).wf(),
        ensures
            final(self).wf(),
            ok == old(self).valid_buf(rb),
            !ok ==> *final(self) == *old(self),
            ok ==> {
                &&& final(self).pages.len() == old(self).pages.len()
                &&& forall|p: int|
                    0 <= p < old(self).pages.len() && p != rb.page ==> final(self).pages[p] == old(
                        self,
                    ).pages[p]
                &&& final(self).pages[rb.page as int].is_free(rb.slot as int)
                &&& slot_zeroed(final(self).pages[rb.page as int].bytes(), rb.slot as int)
                &&& final(self).pages[rb.page as int].free_list@ == old(self).pages[
                    rb.page as int
                ].free_list@.push(rb.slot)
                &&& final(self).pages[rb.page as int].bytes().len() == PAGE_BYTES
                &&& forall|i: int|
                    0 <= i < PAGE_BYTES && !(rb.slot * (SLOT_BYTES as int) <= i < (rb.slot + 1) * (
                    SLOT_BYTES as int)) ==> #[trigger] final(self).pages[rb.page as int].bytes()[i]
                        == old(self).pages[rb.page as int].bytes()[i]
            },
    {
        if rb.page >= self.pages.len() || rb.slot >= SLOTS_PER_PAGE {
            return false;
        }
        {
            let pg = &self.pages[rb.page];
            if pg.free_list_has(rb.slot) {
                return false;
            }
        }
        let pg = vec_index_mut(&mut self.pages, rb.page);
        let ok = pg.dealloc(rb.slot);
        assert(ok);
        ok
    }

    /// Writes one byte inside a live slot, as the owner of the buffer (or
    /// the hardware side it hands the address to) would. Refused with
    /// `false` on an invalid handle or offset.
    pub fn write_byte(&mut self, rb: &RingBuf, off: usize, v: u8) -> (ok: bool)
        requires
            old(self).wf(),
        ensures
            final(self).wf(),
            ok == (old(self).valid_buf(*rb) && off < SLOT_BYTES),
            !ok ==> *final(self) == *old(self),
            ok ==> {
                &&& final(self).pages.len() == old(self).pages.len()
                &&& forall|p: int|
                    0 <= p < old(self).pages.len() && p != rb.page ==> final(self).pages[p] == old(
                        self,
                    ).pages[p]
                &&& final(self).pages[rb.page as int].free_list == old(self).pages[rb.page as int].free_list
                &&& final(self).pages[rb.page as int].bytes() == old(
                    self,
                ).pages[rb.page as int].bytes().update(rb.slot * (SLOT_BYTES as int) + off, v)
            },
    {
        if rb.page >= self.pages.len() || rb.slot >= SLOTS_PER_PAGE || off >= SLOT_BYTES {
            return false;
        }
        let ghost pre = *old(self);
        {
            let pg = &self.pages[rb.page];
            if pg.free_list_has(rb.slot) {
                return false;
            }
        }
        let pg = vec_index_mut(&mut self.pages, rb.page);
        let ghost prepg = *pg;
        let i = rb.slot * SLOT_BYTES + off;
        mmap_write_byte(&mut pg.mmap, i, v);
        assert forall|k: int|
            0 <= k < pg.free_list.len() implies slot_zeroed(
            pg.bytes(),
            (#[trigger] pg.free_list[k]) as int,
        ) by {
            let f = pg.free_list[k] as int;
            assert(f != rb.slot);
            assert(slot_zeroed(prepg.bytes(), f));
            assert forall|j: int|
                f * (SLOT_BYTES as int) <= j < (f + 1) * (SLOT_BYTES as int) implies #[trigger] pg.bytes()[j] == 0u8 by {
                assert(j != i);
                assert(prepg.bytes()[j] == 0u8);
            }
        }
        true
    }

    /// Reads one byte of a live slot; `None` on an invalid handle or
    /// offset.
    pub fn read_byte(&self, rb: &RingBuf, off: usize) -> (r: Option<u8>)
        requires
            self.wf(),
        ensures
            (r is None) == !(self.valid_buf(*rb) && off < SLOT_BYTES),
            r matches Some(v) ==> v == self.pages[rb.page as int].bytes()[rb.slot * (
            SLOT_BYTES as int) + off],
    {
        if rb.page >= self.pages.len() || rb.slot >= SLOTS_PER_PAGE || off >= SLOT_BYTES {
            return None;
        }
        let pg = &self.pages[rb.page];
        if pg.free_list_has(rb.slot) {
            return None;
        }
        Some(mmap_read_byte(&pg.mmap, rb.slot * SLOT_BYTES + off))
    }
}

/// Entries in the second-level table arena: `2^MAX_ORDER`.
pub const ARENA_ENTRIES: usize = 4096;

/// Largest buddy block-size exponent: one block of `2^MAX_ORDER`
/// entries covers the whole arena.
pub const MAX_ORDER: usize = 12;

/// Entries in a buddy block of order `k`: `2^k`.
pub open spec fn bsize(k: nat) -> nat
    decreases k,
{
    if k == 0 {
        1
    } else {
        2 * bsize((k - 1) as nat)
    }
}

pub proof fn lemma_bsize_pos(k: nat)
    ensures
        bsize(k) >= 1,
    decreases k,
{
    if k > 0 {
        lemma_bsize_pos((k - 1) as nat);
    }
}

pub proof fn lemma_bsize_monotone(i: nat, j: nat)
    requires
        i <= j,
    ensures
        bsize(i) <= bsize(j),
    decreases j,
{
    lemma_bsize_pos(i);
    if i < j {
        lemma_bsize_monotone(i, (j - 1) as nat);
    }
}

/// Two buddy blocks, each given as offset and order, occupy disjoint
/// entry ranges.
pub open spec fn blk_disjoint(o1: int, k1: nat, o2: int, k2: nat) -> bool {
    o1 + bsize(k1) <= o2 || o2 + bsize(k2) <= o1
}

/// `k` is the order a table of `len` entries occupies: the least
/// exponent with `2^k >= len`.
pub open spec fn is_table_order(len: nat, k: nat) -> bool {
    bsize(k) >= len && (k == 0 || bsize((k - 1) as nat) < len)
}

/// The occupied order of a length is unique.
pub proof fn lemma_table_order_unique(len: nat, k1: nat, k2: nat)
    requires
        is_table_order(len, k1),
        is_table_order(len, k2),
    ensures
        k1 == k2,
{
    if k1 < k2 {
        lemma_bsize_monotone(k1, (k2 - 1) as nat);
    }
    if k2 < k1 {
        lemma_bsize_monotone(k2, (k1 - 1) as nat);
    }
}

fn block_size(k: usize) -> (n: usize)
    requires
        k <= MAX_ORDER,
    ensures
        n == bsize(k as nat),
{
    proof {
        reveal_with_fuel(bsize, 14);
    }
    match k {
        0 => 1,
        1 => 2,
        2 => 4,
        3 => 8,
        4 => 16,
        5 => 32,
        6 => 64,
        7 => 128,
        8 => 256,
        9 => 512,
        10 => 1024,
        11 => 2048,
        _ => 4096,
    }
}

/// Computes the order a table of `len` entries occupies.
pub fn order_for(len: usize) -> (o: usize)
    requires
        1 <= len <= ARENA_ENTRIES,
    ensures
        o <= MAX_ORDER,
        is_table_order(len as nat, o as nat),
{
    proof {
        reveal_with_fuel(bsize, 14);
    }
    let mut o: usize = 0;
    let mut size: usize = 1;
    while size < len
        invariant
            1 <= len <= ARENA_ENTRIES,
            o <= MAX_ORDER,
            size == bsize(o as nat),
            o == 0 || bsize((o - 1) as nat) < len,
        decreases MAX_ORDER - o,
    {
        proof {
            lemma_bsize_pos(o as nat);
            if o >= MAX_ORDER {
                assert(bsize(12) == 4096) by {
                    reveal_with_fuel(bsize, 14);
                }
                assert(false);
            }
        }
        size = size * 2;
        o = o + 1;
    }
    o
}

fn find_slot(l: &Vec<usize>, x: usize) -> (r: Option<usize>)
    ensures
        match r {
            Some(i) => i < l.len() && l[i as int] == x,
            None => forall|q: int| 0 <= q < l.len() ==> l[q] != x,
        },
{
    let mut i: usize = 0;
    while i < l.len()
        invariant
            i <= l.len(),
            forall|q: int| 0 <= q < i ==> l[q] != x,
        decreases l.len() - i,
    {
        if l[i] == x {
            return Some(i);
        }
        i += 1;
    }
    None
}

/// The buddy allocator for second-level translation tables. It owns a
/// fixed arena of second-level entries and a free list per block-size
/// exponent; allocation rounds the requested length up to the next
/// power of two, splitting larger free blocks, and freeing coalesces a
/// block with its buddy while the buddy is free.
pub struct L2Allocator {
    pub arena: Vec<crate::mtt::L2Entry>,
    pub free: Vec<Vec<usize>>,
    /// The blocks currently handed out and not yet freed, each as
    /// (offset, order).
    pub live: Ghost<Set<(int, int)>>,
}

impl L2Allocator {
    /// A live block's shape: an in-range order and a range inside the
    /// arena.
    pub open spec fn live_blk_wf(self, b: (int, int)) -> bool {
        0 <= b.0 && 0 <= b.1 <= MAX_ORDER && b.0 + bsize(b.1 as nat) <= ARENA_ENTRIES
    }

    /// Well-formedness: the arena has its fixed size, there is one free
    /// list per order, every block lies inside the arena, and no two
    /// blocks overlap — free blocks among themselves, live blocks among
    /// themselves, and free against live — so an allocation can never
    /// alias a live table.
    pub open spec fn wf(self) -> bool {
        &&& self.arena.len() == ARENA_ENTRIES
        &&& self.free.len() == MAX_ORDER + 1
        &&& forall|k: int, e: int|
            0 <= k <= MAX_ORDER && 0 <= e < self.free[k].len() ==> (#[trigger] self.free[k][e])
                + bsize(k as nat) <= ARENA_ENTRIES
        &&& forall|b: (int, int)| #[trigger] self.live@.contains(b) ==> self.live_blk_wf(b)
        &&& forall|b: (int, int), k: int, e: int|
            #[trigger] self.live@.contains(b) && 0 <= k <= MAX_ORDER && 0 <= e < self.free[k].len()
                ==> blk_disjoint((#[trigger] self.free[k][e]) as int, k as nat, b.0, b.1 as nat)
        &&& forall|b1: (int, int), b2: (int, int)|
            #[trigger] self.live@.contains(b1) && #[trigger] self.live@.contains(b2) && b1 != b2
                ==> blk_disjoint(b1.0, b1.1 as nat, b2.0, b2.1 as nat)
        &&& forall|k1: int, e1: int, k2: int, e2: int|
            0 <= k1 <= MAX_ORDER && 0 <= e1 < self.free[k1].len() && 0 <= k2 <= MAX_ORDER && 0 <= e2
                < self.free[k2].len() && !(k1 == k2 && e1 == e2) ==> blk_disjoint(
                (#[trigger] self.free[k1][e1]) as int,
                k1 as nat,
                (#[trigger] self.free[k2][e2]) as int,
                k2 as nat,
            )
    }

    /// A fresh allocator: a zeroed arena and one maximal free block.
    pub fn new() -> (r: L2Allocator)
        ensures
            r.wf(),
            forall|i: int| 0 <= i < ARENA_ENTRIES ==> (#[trigger] r.arena[i]).pa == 0,
            forall|k: int| 0 <= k < MAX_ORDER ==> (#[trigger] r.free[k]).len() == 0,
            r.free[MAX_ORDER as int].len() == 1,
            r.live@ == Set::<(int, int)>::empty(),
    {
        let mut arena: Vec<crate::mtt::L2Entry> = Vec::new();
        let mut i: usize = 0;
        while i < ARENA_ENTRIES
            invariant
                i <= ARENA_ENTRIES,
                arena.len() == i,
                forall|j: int| 0 <= j < i ==> (#[trigger] arena[j]).pa == 0,
            decreases ARENA_ENTRIES - i,
        {
            arena.push(crate::mtt::L2Entry { pa: 0 });
            i += 1;
        }
        let mut free: Vec<Vec<usize>> = Vec::new();
        let mut k: usize = 0;
        while k <= MAX_ORDER
            invariant
                k <= MAX_ORDER + 1,
                free.len() == k,
                forall|j: int| 0 <= j < k ==> (#[trigger] free[j]).len() == 0,
            decreases MAX_ORDER + 1 - k,
        {
            free.push(Vec::new());
            k += 1;
        }
        let top = vec_index_mut(&mut free, MAX_ORDER);
        top.push(0);
        proof {
            assert(bsize(12) == 4096) by {
                reveal_with_fuel(bsize, 14);
            }
        }
        L2Allocator { arena, free, live: Ghost(Set::empty()) }
    }

    /// Allocates a table of `len` entries: takes the smallest free
    /// block of sufficient order, splitting larger blocks down to the
    /// occupied order. `Err(OutOfMemory)` comes exactly when no free
    /// block can hold `len` entries; the allocator is then unchanged.
    #[verifier::loop_isolation(false)]
    pub fn alloc_table(&mut self, len: usize) -> (r: Result<crate::mtt::L2Table, AllocError>)
        requires
            old(self).wf(),
            1 <= len,
        ensures
            final(self).wf(),
            final(self).arena@ == old(self).arena@,
            match r {
                Ok(t) => {
                    &&& t.len == len
                    &&& t.order <= MAX_ORDER
                    &&& is_table_order(len as nat, t.order as nat)
                    &&& t.offset + bsize(t.order as nat) <= ARENA_ENTRIES
                    &&& t.offset + len <= ARENA_ENTRIES
                    &&& exists|j: int|
                        0 <= j <= MAX_ORDER && (#[trigger] old(self).free[j]).len() > 0 && bsize(
                            j as nat,
                        ) >= len
                    &&& final(self).live@ == old(self).live@.insert((t.offset as int, t.order as int))
                    &&& !old(self).live@.contains((t.offset as int, t.order as int))
                    &&& forall|b: (int, int)|
                        #[trigger] old(self).live@.contains(b) ==> blk_disjoint(
                            t.offset as int,
                            t.order as nat,
                            b.0,
                            b.1 as nat,
                        )
                },
                Err(e) => {
                    &&& e == AllocError::OutOfMemory
                    &&& final(self).free@ == old(self).free@
                    &&& final(self).live@ == old(self).live@
                    &&& forall|j: int|
                        0 <= j <= MAX_ORDER && (#[trigger] old(self).free[j]).len() > 0 ==> bsize(
                            j as nat,
                        ) < len
                },
            },
    {
        if len > ARENA_ENTRIES {
            proof {
                assert(bsize(12) == 4096) by {
                    reveal_with_fuel(bsize, 14);
                }
                assert forall|j: int|
                    0 <= j <= MAX_ORDER && (#[trigger] self.free[j]).len() > 0 implies bsize(
                    j as nat,
                ) < len by {
                    lemma_bsize_monotone(j as nat, 12);
                }
            }
            return Err(AllocError::OutOfMemory);
        }
        let order = order_for(len);
        let mut j: usize = order;
        while j <= MAX_ORDER && self.free[j].len() == 0
            invariant
                order <= j <= MAX_ORDER + 1,
                forall|q: int| order <= q < j ==> (#[trigger] self.free[q]).len() == 0,
            decreases MAX_ORDER + 1 - j,
        {
            j += 1;
        }
        if j > MAX_ORDER {
            proof {
                assert forall|q: int|
                    0 <= q <= MAX_ORDER && (#[trigger] self.free[q]).len() > 0 implies bsize(
                    q as nat,
                ) < len by {
                    assert(q < order);
                    lemma_bsize_monotone(q as nat, (order - 1) as nat);
                }
            }
            return Err(AllocError::OutOfMemory);
        }
        proof {
            lemma_bsize_monotone(order as nat, j as nat);
            assert(0 <= j <= MAX_ORDER && old(self).free[j as int].len() > 0 && bsize(j as nat)
                >= len);
        }
        let ghost a_pre = *self;
        let fl = vec_index_mut(&mut self.free, j);
        let off_opt = fl.pop();
        let off = off_opt.unwrap();
        proof {
            let lastidx = a_pre.free[j as int].len() - 1;
            assert(off == a_pre.free[j as int][lastidx]);
            assert(off + bsize(j as nat) <= ARENA_ENTRIES);
            // the popped block stands apart from every live block and
            // from every remaining free block
            assert forall|b: (int, int)| #[trigger] self.live@.contains(b) implies blk_disjoint(
                off as int,
                j as nat,
                b.0,
                b.1 as nat,
            ) by {
                assert(blk_disjoint(
                    a_pre.free[j as int][lastidx] as int,
                    j as nat,
                    b.0,
                    b.1 as nat,
                ));
            }
            assert forall|k2: int, e2: int|
                0 <= k2 <= MAX_ORDER && 0 <= e2 < self.free[k2].len() implies blk_disjoint(
                off as int,
                j as nat,
                (#[trigger] self.free[k2][e2]) as int,
                k2 as nat,
            ) by {
                assert(self.free[k2][e2] == a_pre.free[k2][e2]);
                assert(blk_disjoint(
                    a_pre.free[k2][e2] as int,
                    k2 as nat,
                    a_pre.free[j as int][lastidx] as int,
                    j as nat,
                ));
            }
        }
        let mut k: usize = j;
        while k > order
            invariant
                order <= k <= MAX_ORDER,
                off + bsize(k as nat) <= ARENA_ENTRIES,
                self.wf(),
                self.arena@ == old(self).arena@,
                self.live@ == old(self).live@,
                forall|b: (int, int)|
                    #[trigger] self.live@.contains(b) ==> blk_disjoint(
                        off as int,
                        k as nat,
                        b.0,
                        b.1 as nat,
                    ),
                forall|k2: int, e2: int|
                    0 <= k2 <= MAX_ORDER && 0 <= e2 < self.free[k2].len() ==> blk_disjoint(
                        off as int,
                        k as nat,
                        (#[trigger] self.free[k2][e2]) as int,
                        k2 as nat,
                    ),
            decreases k,
        {
            k -= 1;
            let ghost a_cur = *self;
            let half = block_size(k);
            proof {
                lemma_bsize_pos(k as nat);
                assert(bsize((k + 1) as nat) == 2 * bsize(k as nat));
            }
            let fl = vec_index_mut(&mut self.free, k);
            fl.push(off + half);
            proof {
                let newe = self.free[k as int].len() - 1;
                assert(self.free[k as int][newe] == off + half);
                // the freed upper half is apart from every live block
                // and every previously free block, both being apart
                // from the whole block in hand
                assert forall|b: (int, int)| #[trigger] self.live@.contains(b) implies blk_disjoint(
                    (off + half) as int,
                    k as nat,
                    b.0,
                    b.1 as nat,
                ) by {
                    assert(blk_disjoint(off as int, (k + 1) as nat, b.0, b.1 as nat));
                }
                assert forall|k2: int, e2: int|
                    0 <= k2 <= MAX_ORDER && 0 <= e2 < a_cur.free[k2].len() implies blk_disjoint(
                    (off + half) as int,
                    k as nat,
                    (#[trigger] a_cur.free[k2][e2]) as int,
                    k2 as nat,
                ) by {
                    assert(blk_disjoint(
                        off as int,
                        (k + 1) as nat,
                        a_cur.free[k2][e2] as int,
                        k2 as nat,
                    ));
                }
            }
        }
        proof {
            lemma_bsize_pos(order as nat);
            if self.live@.contains((off as int, order as int)) {
                // a block in hand cannot already be live: it would have
                // to lie apart from itself
                assert(blk_disjoint(off as int, order as nat, off as int, order as nat));
                assert(false);
            }
        }
        let t = crate::mtt::L2Table { offset: off, len, order };
        proof {
            self.live@ = self.live@.insert((off as int, order as int));
        }
        Ok(t)
    }

    /// Frees a table's block, merging it with its buddy while the buddy
    /// is on the free list of the same order. Afterwards the freed block
    /// stands on a free list again: some list of order at least
    /// `table.order` holds a block covering the freed range, so an
    /// allocation of the same size succeeds again — free inverts
    /// allocate.
    #[verifier::loop_isolation(false)]
    pub fn dealloc_table(&mut self, table: crate::mtt::L2Table) -> (r: Result<(), AllocError>)
        requires
            old(self).wf(),
            table.order <= MAX_ORDER,
            table.offset + bsize(table.order as nat) <= ARENA_ENTRIES,
            old(self).live@.contains((table.offset as int, table.order as int)),
        ensures
            final(self).wf(),
            final(self).arena@ == old(self).arena@,
            final(self).live@ == old(self).live@.remove((table.offset as int, table.order as int)),
            r is Ok,
            exists|k: int, e: int|
                table.order <= k <= MAX_ORDER && 0 <= e < final(self).free[k].len()
                    && (#[trigger] final(self).free[k][e]) <= table.offset && table.offset + bsize(
                    table.order as nat,
                ) <= final(self).free[k][e] + bsize(k as nat),
    {
        let mut off = table.offset;
        let mut k = table.order;
        let mut merging = true;
        proof {
            self.live@ = self.live@.remove((table.offset as int, table.order as int));
            let b0 = (table.offset as int, table.order as int);
            assert forall|b: (int, int)| #[trigger] self.live@.contains(b) implies blk_disjoint(
                off as int,
                k as nat,
                b.0,
                b.1 as nat,
            ) by {
                assert(old(self).live@.contains(b) && b != b0);
                assert(old(self).live@.contains(b0));
            }
            assert forall|k2: int, e2: int|
                0 <= k2 <= MAX_ORDER && 0 <= e2 < self.free[k2].len() implies blk_disjoint(
                off as int,
                k as nat,
                (#[trigger] self.free[k2][e2]) as int,
                k2 as nat,
            ) by {
                assert(old(self).live@.contains(b0));
            }
        }
        while merging && k < MAX_ORDER
            invariant
                table.order <= k <= MAX_ORDER,
                off <= table.offset,
                table.offset + bsize(table.order as nat) <= off + bsize(k as nat),
                off + bsize(k as nat) <= ARENA_ENTRIES,
                0 <= off,
                self.wf(),
                self.arena@ == old(self).arena@,
                self.live@ == old(self).live@.remove((table.offset as int, table.order as int)),
                forall|b: (int, int)|
                    #[trigger] self.live@.contains(b) ==> blk_disjoint(
                        off as int,
                        k as nat,
                        b.0,
                        b.1 as nat,
                    ),
                forall|k2: int, e2: int|
                    0 <= k2 <= MAX_ORDER && 0 <= e2 < self.free[k2].len() ==> blk_disjoint(
                        off as int,
                        k as nat,
                        (#[trigger] self.free[k2][e2]) as int,
                        k2 as nat,
                    ),
            decreases 2 * (MAX_ORDER - k) + (if merging {
                1int
            } else {
                0int
            }),
        {
            let bs = block_size(k);
            proof {
                lemma_bsize_pos(k as nat);
                assert(bsize((k + 1) as nat) == 2 * bsize(k as nat));
            }
            let q = off / bs;
            // an odd quotient implies the offset is at least one block,
            // so the unreachable arm reports no buddy instead
            let buddy_opt: Option<usize> = if q % 2 == 0 {
                Some(off + bs)
            } else if off >= bs {
                Some(off - bs)
            } else {
                None
            };
            match buddy_opt {
                Some(buddy) => {
                    match find_slot(&self.free[k], buddy) {
                        Some(pos) => {
                            let ghost a_cur = *self;
                            proof {
                                assert(a_cur.free[k as int][pos as int] + bsize(k as nat)
                                    <= ARENA_ENTRIES);
                            }
                            let fl = vec_index_mut(&mut self.free, k);
                            let _ = fl.swap_remove(pos);
                            let newoff: usize = if buddy < off {
                                buddy
                            } else {
                                off
                            };
                            proof {
                                let plen = a_cur.free[k as int].len();
                                // the merged block is the union of the two
                                // adjacent halves, so whatever lies apart
                                // from both halves lies apart from it
                                assert forall|b: (int, int)| #[trigger] self.live@.contains(
                                    b,
                                ) implies blk_disjoint(
                                    newoff as int,
                                    (k + 1) as nat,
                                    b.0,
                                    b.1 as nat,
                                ) by {
                                    lemma_bsize_pos(b.1 as nat);
                                    assert(a_cur.free[k as int][pos as int] == buddy);
                                    assert(blk_disjoint(off as int, k as nat, b.0, b.1 as nat));
                                    assert(blk_disjoint(
                                        a_cur.free[k as int][pos as int] as int,
                                        k as nat,
                                        b.0,
                                        b.1 as nat,
                                    ));
                                }
                                assert forall|k2: int, e2: int|
                                    0 <= k2 <= MAX_ORDER && 0 <= e2
                                        < self.free[k2].len() implies blk_disjoint(
                                    newoff as int,
                                    (k + 1) as nat,
                                    (#[trigger] self.free[k2][e2]) as int,
                                    k2 as nat,
                                ) by {
                                    lemma_bsize_pos(k2 as nat);
                                    assert(a_cur.free[k as int][pos as int] == buddy);
                                    let e2p: int = if k2 == k && e2 == pos {
                                        plen - 1
                                    } else {
                                        e2
                                    };
                                    assert(self.free[k2][e2] == a_cur.free[k2][e2p]);
                                    assert(!(k2 == k && e2p == pos));
                                    assert(blk_disjoint(
                                        off as int,
                                        k as nat,
                                        a_cur.free[k2][e2p] as int,
                                        k2 as nat,
                                    ));
                                    assert(blk_disjoint(
                                        a_cur.free[k as int][pos as int] as int,
                                        k as nat,
                                        a_cur.free[k2][e2p] as int,
                                        k2 as nat,
                                    ));
                                }
                                // well-formedness survives removing a free
                                // block: every remaining block was already
                                // on the lists
                                assert forall|b: (int, int), k2: int, e2: int|
                                    #[trigger] self.live@.contains(b) && 0 <= k2 <= MAX_ORDER && 0
                                        <= e2 < self.free[k2].len() implies blk_disjoint(
                                    (#[trigger] self.free[k2][e2]) as int,
                                    k2 as nat,
                                    b.0,
                                    b.1 as nat,
                                ) by {
                                    let e2p: int = if k2 == k && e2 == pos {
                                        plen - 1
                                    } else {
                                        e2
                                    };
                                    assert(self.free[k2][e2] == a_cur.free[k2][e2p]);
                                }
                                assert forall|k1: int, e1: int, k2: int, e2: int|
                                    0 <= k1 <= MAX_ORDER && 0 <= e1 < self.free[k1].len() && 0 <= k2
                                        <= MAX_ORDER && 0 <= e2 < self.free[k2].len() && !(k1 == k2
                                        && e1 == e2) implies blk_disjoint(
                                    (#[trigger] self.free[k1][e1]) as int,
                                    k1 as nat,
                                    (#[trigger] self.free[k2][e2]) as int,
                                    k2 as nat,
                                ) by {
                                    let e1p: int = if k1 == k && e1 == pos {
                                        plen - 1
                                    } else {
                                        e1
                                    };
                                    let e2p: int = if k2 == k && e2 == pos {
                                        plen - 1
                                    } else {
                                        e2
                                    };
                                    assert(self.free[k1][e1] == a_cur.free[k1][e1p]);
                                    assert(self.free[k2][e2] == a_cur.free[k2][e2p]);
                                    assert(!(k1 == k2 && e1p == e2p));
                                }
                            }
                            off = newoff;
                            k += 1;
                        },
                        None => {
                            merging = false;
                        },
                    }
                },
                None => {
                    merging = false;
                },
            }
        }
        proof {
            lemma_bsize_monotone(table.order as nat, k as nat);
        }
        let fl = vec_index_mut(&mut self.free, k);
        fl.push(off);
        proof {
            assert(self.free[k as int][self.free[k as int].len() - 1] == off);
        }
        Ok(())
    }

    /// Writes one arena entry; the free lists are untouched.
    pub fn set_entry(&mut self, i: usize, pa: u64)
        requires
            old(self).wf(),
            i < ARENA_ENTRIES,
        ensures
            final(self).wf(),
            final(self).free@ == old(self).free@,
            final(self).live@ == old(self).live@,
            final(self).arena@ == old(self).arena@.update(i as int, crate::mtt::L2Entry { pa }),
    {
        self.arena.set(i, crate::mtt::L2Entry { pa });
    }

    /// Reads one arena entry.
    pub fn get_entry(&self, i: usize) -> (e: crate::mtt::L2Entry)
        requires
            self.wf(),
            i < ARENA_ENTRIES,
        ensures
            e == self.arena[i as int],
    {
        self.arena[i]
    }
}

/// A slab with every page full holds no free slot, in particular not
/// two of them.
pub proof fn lemma_no_free_slot_means_not_two(a: RbAllocator)
    requires
        a.all_full(),
    ensures
        !a.has_two_free(),
{
    if a.has_two_free() {
        let (p1, s1, p2, s2) = choose|p1: int, s1: int, p2: int, s2: int|
            0 <= p1 < a.pages.len() && 0 <= p2 < a.pages.len() && (#[trigger] a.pages[p1].is_free(
                s1,
            )) && (#[trigger] a.pages[p2].is_free(s2)) && !(p1 == p2 && s1 == s2);
        let k = choose|k: int|
            0 <= k < a.pages[p1].free_list.len() && a.pages[p1].free_list[k] == s1;
        assert(a.pages[p1].free_list.len() == 0);
        assert(false);
    }
}

/// Law of the slab: under the page invariant the live slot indices are
/// the complement of the free list within `[0, SLOTS_PER_PAGE)`, two
/// distinct slots occupy disjoint byte ranges of the page, and every
/// free slot — in particular any slot about to be handed out — is
/// zero-filled.
pub proof fn lemma_slab_slots(p: Page, s1: int, s2: int)
    requires
        p.wf(),
        0 <= s1 < SLOTS_PER_PAGE,
        0 <= s2 < SLOTS_PER_PAGE,
        s1 != s2,
    ensures
        (s1 + 1) * (SLOT_BYTES as int) <= s2 * (SLOT_BYTES as int) || (s2 + 1) * (SLOT_BYTES as int)
            <= s1 * (SLOT_BYTES as int),
        p.is_free(s1) ==> slot_zeroed(p.bytes(), s1),
{
    if p.is_free(s1) {
        let k = choose|k: int| 0 <= k < p.free_list.len() && p.free_list[k] == s1;
        assert(slot_zeroed(p.bytes(), p.free_list[k] as int));
    }
}

} // verus!
