//! Device orchestration: queue-pair and completion-queue creation over
//! the slab allocator, memory-region registration and deregistration
//! over the buddy allocator and the MTT, key generation, and the walk
//! from an access key and a virtual address to a physical address.

use vstd::prelude::*;
use vstd::arithmetic::div_mod::{lemma_div_is_ordered, lemma_fundamental_div_mod};
use vstd::std_specs::vec::vec_index_mut;

use crate::allocator::{
    alloc_effect, blk_disjoint, bsize, is_table_order, lemma_bsize_monotone, lemma_bsize_pos,
    lemma_no_free_slot_means_not_two, lemma_table_order_unique, order_for, slot_zeroed, L2Allocator,
    RbAllocator, ARENA_ENTRIES, MAX_ORDER,
};
use crate::mtt::{L1Entry, L2Entry, L2Table, Mtt};
use crate::ring::{Descriptor, RdmaRing};
use crate::v2p::{lookup, TranslationMap};
use crate::verbs::{IbvBuf, IbvMr};
use crate::{AllocError, DeviceError, RingError, HUGE_PAGE_2MB, L1_ENTRIES, PAGE_BYTES};

verus! {

/// Keys the generator can mint before the index space `[1, 2^20)` of
/// the first-level table is exhausted.
pub const KEY_MAX: u32 = 1048575;

/// The key minted for generation counter `c`: a non-zero value whose
/// high bits decode to first-level index `c + 1`. The low eight bits
/// are reserved for versioning and stay zero here.
pub open spec fn key_spec(c: int) -> int {
    (c + 1) * 256
}

/// The first-level index a key decodes to: its value shifted right by
/// the eight reserved low bits.
pub open spec fn key_index(key: u32) -> int {
    key as int / 256
}

/// Huge-page chunks covering `len` bytes (`len >= 1`).
pub open spec fn chunk_count(len: int) -> int {
    (len - 1) / (PAGE_BYTES as int) + 1
}

/// The virtual address of chunk `k` of a buffer at `addr`.
pub open spec fn chunk_va(addr: u64, k: int) -> int {
    addr + k * (PAGE_BYTES as int)
}

proof fn lemma_shr8(x: u32)
    ensures
        x >> 8u32 == x / 256u32,
{
    assert(x >> 8u32 == x / 256u32) by (bit_vector);
}

proof fn lemma_shr21(x: u64)
    ensures
        x >> 21u64 == x / 2097152u64,
{
    assert(x >> 21u64 == x / 2097152u64) by (bit_vector);
}

/// Send queue descriptor: four 64-bit words. Bit 0 of the flags word
/// `f[1]` is the valid bit.
#[derive(Clone, Copy, Debug, PartialEq, Eq)]
pub struct Sqd {
    pub f: [u64; 4],
}

impl Descriptor for Sqd {
    open spec fn valid_spec(self) -> bool {
        self.f@[1] & 1u64 == 1u64
    }

    fn f_valid(&self) -> (b: bool) {
        self.f[1] & 1 == 1
    }

    fn zeroed() -> (d: Self) {
        proof {
            assert(0u64 & 1u64 == 0u64) by (bit_vector);
        }
        Sqd { f: [0u64, 0u64, 0u64, 0u64] }
    }

    fn invalidate(&mut self) {
        let w = self.f[1];
        proof {
            assert((w & 0xffff_ffff_ffff_fffeu64) & 1u64 == 0u64) by (bit_vector);
        }
        self.f[1] = w & 0xffff_ffff_ffff_fffe;
    }
}

/// Receive queue descriptor: four 64-bit words. Bit 0 of the flags
/// word `f[1]` is the valid bit.
#[derive(Clone, Copy, Debug, PartialEq, Eq)]
pub struct Rqd {
    pub f: [u64; 4],
}

impl Descriptor for Rqd {
    open spec fn valid_spec(self) -> bool {
        self.f@[1] & 1u64 == 1u64
    }

    fn f_valid(&self) -> (b: bool) {
        self.f[1] & 1 == 1
    }

    fn zeroed() -> (d: Self) {
        proof {
            assert(0u64 & 1u64 == 0u64) by (bit_vector);
        }
        Rqd { f: [0u64, 0u64, 0u64, 0u64] }
    }

    fn invalidate(&mut self) {
        let w = self.f[1];
        proof {
            assert((w & 0xffff_ffff_ffff_fffeu64) & 1u64 == 0u64) by (bit_vector);
        }
        self.f[1] = w & 0xffff_ffff_ffff_fffe;
    }
}

/// Completion queue descriptor: four 64-bit words. Bit 0 of the flags
/// word `f[1]` is the valid bit.
#[derive(Clone, Copy, Debug, PartialEq, Eq)]
pub struct Cqd {
    pub f: [u64; 4],
}

impl Descriptor for Cqd {
    open spec fn valid_spec(self) -> bool {
        self.f@[1] & 1u64 == 1u64
    }

    fn f_valid(&self) -> (b: bool) {
        self.f[1] & 1 == 1
    }

    fn zeroed() -> (d: Self) {
        proof {
            assert(0u64 & 1u64 == 0u64) by (bit_vector);
        }
        Cqd { f: [0u64, 0u64, 0u64, 0u64] }
    }

    fn invalidate(&mut self) {
        let w = self.f[1];
        proof {
            assert((w & 0xffff_ffff_ffff_fffeu64) & 1u64 == 0u64) by (bit_vector);
        }
        self.f[1] = w & 0xffff_ffff_ffff_fffe;
    }
}

/// One connection endpoint: a send ring and a receive ring.
pub struct QueuePair {
    pub send: RdmaRing<Sqd>,
    pub recv: RdmaRing<Rqd>,
}

/// A ring where the hardware posts completions.
pub struct CompletionQueue {
    pub inner: RdmaRing<Cqd>,
}

/// The device: allocators, rings and the translation table under one
/// owner with exclusive access.
pub struct RdmaDevice {
    pub rb_allocator: RbAllocator,
    pub l2_allocator: L2Allocator,
    pub qps: Vec<QueuePair>,
    pub cqs: Vec<CompletionQueue>,
    pub mtt: Mtt,
    pub page_table: TranslationMap,
    pub key_count: u32,
}

impl RdmaDevice {
    /// What holds of a present (live) first-level entry: its index was
    /// minted by the key generator, its key decodes back to its index,
    /// and its second-level table lies inside the arena, in a block of
    /// the order its size occupies.
    pub open spec fn live_entry_wf(self, i: int) -> bool {
        let e = self.mtt.l1_table[i];
        &&& 1 <= i <= self.key_count
        &&& e.key == 256 * i
        &&& e.size >= 1
        &&& e.offset + e.size <= ARENA_ENTRIES
        &&& exists|k: nat|
            k <= MAX_ORDER && #[trigger] is_table_order(e.size as nat, k) && e.offset + bsize(k)
                <= ARENA_ENTRIES && self.l2_allocator.live@.contains((e.offset as int, k as int))
    }

    pub open spec fn wf(self) -> bool {
        &&& self.rb_allocator.wf()
        &&& self.l2_allocator.wf()
        &&& self.mtt.wf()
        &&& self.key_count <= KEY_MAX
        &&& forall|i: int|
            0 <= i < L1_ENTRIES && (#[trigger] self.mtt.l1_table[i]).size != 0
                ==> self.live_entry_wf(i)
        &&& forall|i1: int, i2: int|
            0 <= i1 < L1_ENTRIES && 0 <= i2 < L1_ENTRIES && i1 != i2 && (
            #[trigger] self.mtt.l1_table[i1]).size != 0 && (#[trigger] self.mtt.l1_table[i2]).size
                != 0 ==> self.mtt.l1_table[i1].offset != self.mtt.l1_table[i2].offset
        &&& forall|q: int|
            0 <= q < self.qps.len() ==> (#[trigger] self.qps[q]).send.wf() && self.qps[q].recv.wf()
        &&& forall|c: int| 0 <= c < self.cqs.len() ==> (#[trigger] self.cqs[c]).inner.wf()
    }

    /// What `walk` returns: the physical address of the page backing
    /// `va` under `key`, or `None` when the key's slot is absent, `va`
    /// lies below the region's base, or the page index falls outside
    /// the region.
    pub open spec fn resolve_spec(self, key: u32, va: u64) -> Option<u64> {
        let i = key_index(key);
        if i >= L1_ENTRIES {
            None
        } else {
            let e = self.mtt.l1_table[i];
            if e.size == 0 {
                None
            } else if va < e.base_va {
                None
            } else {
                let pi = (va - e.base_va) as int / (PAGE_BYTES as int);
                if pi >= e.size {
                    None
                } else {
                    Some(self.l2_allocator.arena[e.offset + pi].pa)
                }
            }
        }
    }

    /// Opens a device over the platform's address translation.
    /// Physical device bring-up (file descriptor, BAR space) is outside
    /// the core and does not appear here.
    pub fn open(page_table: TranslationMap) -> (d: RdmaDevice)
        ensures
            d.wf(),
            d.qps.len() == 0,
            d.cqs.len() == 0,
            d.key_count == 0,
            d.page_table.entries@ == page_table.entries@,
            d.rb_allocator.pages.len() == 0,
            forall|i: int| 0 <= i < L1_ENTRIES ==> (#[trigger] d.mtt.l1_table[i]).size == 0,
    {
        RdmaDevice {
            rb_allocator: RbAllocator::new(),
            l2_allocator: L2Allocator::new(),
            qps: Vec::new(),
            cqs: Vec::new(),
            mtt: Mtt::new(),
            page_table,
            key_count: 0,
        }
    }

    /// Mints a fresh key: non-zero, decoding to an in-bounds first-level
    /// index, and distinct from every key generated before, hence from
    /// every currently live key.
    pub fn gen_key(&mut self) -> (k: u32)
        requires
            old(self).wf(),
            old(self).key_count < KEY_MAX,
        ensures
            final(self).wf(),
            final(self).key_count == old(self).key_count + 1,
            k == key_spec(old(self).key_count as int),
            k != 0,
            key_index(k) == old(self).key_count + 1,
            0 < key_index(k) < L1_ENTRIES,
            final(self).mtt == old(self).mtt,
            final(self).rb_allocator == old(self).rb_allocator,
            final(self).l2_allocator == old(self).l2_allocator,
            final(self).qps == old(self).qps,
            final(self).cqs == old(self).cqs,
            final(self).page_table == old(self).page_table,
    {
        self.key_count = self.key_count + 1;
        let k = self.key_count * 256;
        proof {
            assert((self.key_count as int * 256) / 256 == self.key_count as int)
                by (nonlinear_arith);
        }
        k
    }

    /// Creates a queue pair backed by two fresh, distinct, zero-filled
    /// ring slots, both cursors at zero. On failure the first slot, if
    /// one was taken, is released again: the queues, the tables and the
    /// slab's pages are exactly as before, and failure comes only when
    /// the slab did not hold two free slots and the operating system
    /// refused a new mapping.
    pub fn create_qp(&mut self) -> (r: Result<usize, AllocError>)
        requires
            old(self).wf(),
        ensures
            final(self).wf(),
            final(self).mtt.l1_table@ == old(self).mtt.l1_table@,
            final(self).l2_allocator == old(self).l2_allocator,
            final(self).key_count == old(self).key_count,
            final(self).cqs == old(self).cqs,
            final(self).page_table == old(self).page_table,
            match r {
                Ok(i) => {
                    let sb = final(self).qps[i as int].send.backing;
                    let rbk = final(self).qps[i as int].recv.backing;
                    &&& i == old(self).qps.len()
                    &&& final(self).qps.len() == old(self).qps.len() + 1
                    &&& forall|j: int|
                        0 <= j < old(self).qps.len() ==> final(self).qps[j] == old(self).qps[j]
                    &&& final(self).qps[i as int].send.pending() == Seq::<Sqd>::empty()
                    &&& final(self).qps[i as int].recv.pending() == Seq::<Rqd>::empty()
                    &&& final(self).qps[i as int].send.ctx.head == 0
                    &&& final(self).qps[i as int].send.ctx.tail == 0
                    &&& final(self).qps[i as int].recv.ctx.head == 0
                    &&& final(self).qps[i as int].recv.ctx.tail == 0
                    &&& final(self).qps[i as int].send.ctx.free_slots() == 1023
                    &&& final(self).qps[i as int].recv.ctx.free_slots() == 1023
                    &&& final(self).rb_allocator.valid_buf(sb)
                    &&& final(self).rb_allocator.valid_buf(rbk)
                    &&& !(sb.page == rbk.page && sb.slot == rbk.slot)
                    &&& slot_zeroed(
                        final(self).rb_allocator.pages[sb.page as int].bytes(),
                        sb.slot as int,
                    )
                    &&& slot_zeroed(
                        final(self).rb_allocator.pages[rbk.page as int].bytes(),
                        rbk.slot as int,
                    )
                    &&& old(self).rb_allocator.pages.len() <= final(self).rb_allocator.pages.len()
                        <= old(self).rb_allocator.pages.len() + 2
                    &&& forall|p: int|
                        0 <= p < old(self).rb_allocator.pages.len() && p != sb.page && p
                            != rbk.page ==> final(self).rb_allocator.pages[p] == old(
                            self,
                        ).rb_allocator.pages[p]
                },
                Err(e) => {
                    &&& e == AllocError::OutOfMemory
                    &&& final(self).qps == old(self).qps
                    &&& !old(self).rb_allocator.has_two_free()
                    &&& final(self).rb_allocator.pages.len() == old(
                        self,
                    ).rb_allocator.pages.len()
                    &&& ({
                        let post = final(self).rb_allocator;
                        let pre = old(self).rb_allocator;
                        forall|p: int|
                            0 <= p < pre.pages.len() ==> ((#[trigger] post.pages[p]).free_list@
                                == pre.pages[p].free_list@ && post.pages[p].bytes()
                                == pre.pages[p].bytes())
                    })
                },
            },
    {
        let ghost a0 = self.rb_allocator;
        let send: RdmaRing<Sqd> = match self.rb_allocator.alloc_ring_buf() {
            Ok(rg) => rg,
            Err(e) => {
                proof {
                    lemma_no_free_slot_means_not_two(a0);
                }
                return Err(e);
            },
        };
        let ghost a1 = self.rb_allocator;
        let recv: RdmaRing<Rqd> = match self.rb_allocator.alloc_ring_buf() {
            Ok(rg) => rg,
            Err(e) => {
                let ghost sb = send.backing;
                proof {
                    // every page is full now; had the first slot come from
                    // a fresh page, that page would still hold free slots
                    if sb.page >= a0.pages.len() {
                        assert(a1.pages[sb.page as int].free_list.len() == 0);
                        assert(false);
                    }
                    if a0.all_full() {
                        assert(a0.pages[sb.page as int].is_free(sb.slot as int));
                        let k = choose|k: int|
                            0 <= k < a0.pages[sb.page as int].free_list.len()
                                && a0.pages[sb.page as int].free_list[k] == sb.slot;
                        assert(false);
                    }
                    assert(a1.pages.len() == a0.pages.len());
                    assert(a1.pages[sb.page as int].free_list.len() == 0);
                    assert(a0.pages[sb.page as int].free_list.len() == 1);
                    assert(!a0.has_two_free()) by {
                        if a0.has_two_free() {
                            let (p1, s1, p2, s2) = choose|p1: int, s1: int, p2: int, s2: int|
                                0 <= p1 < a0.pages.len() && 0 <= p2 < a0.pages.len() && (
                                #[trigger] a0.pages[p1].is_free(s1)) && (
                                #[trigger] a0.pages[p2].is_free(s2)) && !(p1 == p2 && s1 == s2);
                            let k1 = choose|k: int|
                                0 <= k < a0.pages[p1].free_list.len() && a0.pages[p1].free_list[k]
                                    == s1;
                            let k2 = choose|k: int|
                                0 <= k < a0.pages[p2].free_list.len() && a0.pages[p2].free_list[k]
                                    == s2;
                            assert(p1 == sb.page && p2 == sb.page);
                            assert(k1 == 0 && k2 == 0);
                            assert(false);
                        }
                    }
                    assert(slot_zeroed(
                        a0.pages[sb.page as int].bytes(),
                        a0.pages[sb.page as int].free_list[0] as int,
                    ));
                }
                let rolled = self.rb_allocator.dealloc(send.into_backing());
                proof {
                    assert(rolled);
                    let a2 = self.rb_allocator;
                    assert(a0.pages[sb.page as int].free_list[0] == sb.slot);
                    assert(a2.pages[sb.page as int].free_list@ =~= a0.pages[
                        sb.page as int
                    ].free_list@);
                    assert forall|i: int|
                        0 <= i < crate::PAGE_BYTES implies a2.pages[sb.page as int].bytes()[i]
                        == a0.pages[sb.page as int].bytes()[i] by {
                        if sb.slot * (crate::SLOT_BYTES as int) <= i < (sb.slot + 1) * (
                        crate::SLOT_BYTES as int) {
                            assert(a2.pages[sb.page as int].bytes()[i] == 0u8);
                            assert(a0.pages[sb.page as int].bytes()[i] == 0u8);
                        } else {
                            assert(a1.pages[sb.page as int].bytes()[i] == a0.pages[
                                sb.page as int
                            ].bytes()[i]);
                        }
                    }
                    assert(a2.pages[sb.page as int].bytes() =~= a0.pages[sb.page as int].bytes());
                }
                return Err(e);
            },
        };
        proof {
            let a2 = self.rb_allocator;
            let sb = send.backing;
            let rbk = recv.backing;
            if rbk.page == sb.page && rbk.slot == sb.slot {
                assert(a1.pages[rbk.page as int].is_free(rbk.slot as int));
                assert(!a1.pages[sb.page as int].is_free(sb.slot as int));
                assert(false);
            }
            assert(!a2.pages[sb.page as int].is_free(sb.slot as int)) by {
                if rbk.page != sb.page {
                    assert(a2.pages[sb.page as int] == a1.pages[sb.page as int]);
                } else {
                    assert(a2.pages[sb.page as int].is_free(sb.slot as int) == a1.pages[
                        sb.page as int
                    ].is_free(sb.slot as int));
                }
            }
            assert(slot_zeroed(a2.pages[sb.page as int].bytes(), sb.slot as int)) by {
                if rbk.page != sb.page {
                    assert(a2.pages[sb.page as int] == a1.pages[sb.page as int]);
                } else {
                    assert(a2.pages[sb.page as int].bytes() == a1.pages[sb.page as int].bytes());
                }
            }
        }
        let i = self.qps.len();
        self.qps.push(QueuePair { send, recv });
        Ok(i)
    }

    /// Creates a completion queue backed by one fresh zero-filled ring
    /// slot, both cursors at zero. Failure comes only when no page had a
    /// free slot and the operating system refused a new mapping; the
    /// device is then unchanged.
    pub fn create_cq(&mut self) -> (r: Result<usize, AllocError>)
        requires
            old(self).wf(),
        ensures
            final(self).wf(),
            final(self).mtt.l1_table@ == old(self).mtt.l1_table@,
            final(self).l2_allocator == old(self).l2_allocator,
            final(self).key_count == old(self).key_count,
            final(self).qps == old(self).qps,
            final(self).page_table == old(self).page_table,
            match r {
                Ok(i) => {
                    &&& i == old(self).cqs.len()
                    &&& final(self).cqs.len() == old(self).cqs.len() + 1
                    &&& forall|j: int|
                        0 <= j < old(self).cqs.len() ==> final(self).cqs[j] == old(self).cqs[j]
                    &&& final(self).cqs[i as int].inner.pending() == Seq::<Cqd>::empty()
                    &&& final(self).cqs[i as int].inner.ctx.head == 0
                    &&& final(self).cqs[i as int].inner.ctx.tail == 0
                    &&& final(self).cqs[i as int].inner.ctx.free_slots() == 1023
                    &&& alloc_effect(
                        old(self).rb_allocator,
                        final(self).rb_allocator,
                        final(self).cqs[i as int].inner.backing,
                    )
                },
                Err(e) => {
                    &&& e == AllocError::OutOfMemory
                    &&& final(self).cqs == old(self).cqs
                    &&& final(self).rb_allocator == old(self).rb_allocator
                    &&& old(self).rb_allocator.all_full()
                    &&& !old(self).rb_allocator.has_two_free()
                },
            },
    {
        let inner: RdmaRing<Cqd> = match self.rb_allocator.alloc_ring_buf() {
            Ok(rg) => rg,
            Err(e) => {
                proof {
                    lemma_no_free_slot_means_not_two(self.rb_allocator);
                }
                return Err(e);
            },
        };
        let i = self.cqs.len();
        self.cqs.push(CompletionQueue { inner });
        Ok(i)
    }

    /// Registers a memory region: splits the buffer into huge-page
    /// chunks, resolves each chunk through the translation map, mints a
    /// fresh `(lkey, rkey)` pair, allocates and fills a second-level
    /// table, and records everything in the first-level slot the local
    /// key decodes to. All-or-nothing: on any failure the MTT, both
    /// allocators and the key counter are exactly as before.
    ///
    /// `Err(TranslationFailed)` comes exactly when keys remain but some
    /// chunk has no physical backing; `Err(OutOfMemory)` exactly when
    /// the key space is exhausted, or every chunk translates but no
    /// free table block can hold them. Otherwise the region is
    /// registered, and resolving any address inside it through the
    /// returned local key yields the chunk's physical address.
    #[verifier::loop_isolation(false)]
    pub fn reg_mr(&mut self, buf: IbvBuf, access: u32) -> (r: Result<IbvMr, DeviceError>)
        requires
            old(self).wf(),
            1 <= buf.length <= u32::MAX,
            buf.addr + buf.length <= u64::MAX,
        ensures
            final(self).wf(),
            ({
                let n = chunk_count(buf.length as int);
                let pt = old(self).page_table.entries@;
                &&& (r is Err ==> {
                    &&& final(self).mtt.l1_table@ == old(self).mtt.l1_table@
                    &&& final(self).l2_allocator.arena@ == old(self).l2_allocator.arena@
                    &&& final(self).l2_allocator.free@ == old(self).l2_allocator.free@
                    &&& final(self).l2_allocator.live@ == old(self).l2_allocator.live@
                    &&& final(self).key_count == old(self).key_count
                })
                &&& (r == Err::<IbvMr, DeviceError>(DeviceError::TranslationFailed) <==> (old(
                    self,
                ).key_count + 2 <= KEY_MAX && exists|q: int|
                    0 <= q < n && lookup(pt, chunk_va(buf.addr, q) as u64) is None))
                &&& (r == Err::<IbvMr, DeviceError>(DeviceError::OutOfMemory) <==> (old(
                    self,
                ).key_count + 2 > KEY_MAX || ((forall|q: int|
                    0 <= q < n ==> lookup(pt, chunk_va(buf.addr, q) as u64) is Some) && forall|
                    j: int,
                |
                    0 <= j <= MAX_ORDER && (#[trigger] old(self).l2_allocator.free[j]).len() > 0
                        ==> bsize(j as nat) < n)))
                &&& (r is Err ==> r == Err::<IbvMr, DeviceError>(DeviceError::TranslationFailed)
                    || r == Err::<IbvMr, DeviceError>(DeviceError::OutOfMemory))
                &&& (r matches Ok(mr) ==> {
                    let idx = key_index(mr.lkey);
                    let e = final(self).mtt.l1_table[idx];
                    &&& mr.addr == buf.addr
                    &&& mr.length == buf.length
                    &&& mr.access == access
                    &&& mr.lkey != 0 && mr.rkey != 0 && mr.lkey != mr.rkey
                    &&& mr.lkey == key_spec(old(self).key_count as int)
                    &&& mr.rkey == key_spec(old(self).key_count as int + 1)
                    &&& 0 < idx < L1_ENTRIES
                    &&& idx == old(self).key_count + 1
                    &&& key_index(mr.rkey) == old(self).key_count + 2
                    &&& 0 < key_index(mr.rkey) < L1_ENTRIES
                    &&& old(self).mtt.l1_table[idx].size == 0
                    &&& old(self).mtt.l1_table[key_index(mr.rkey)].size == 0
                    &&& final(self).key_count == old(self).key_count + 2
                    &&& e.key == mr.lkey && e.size == n && e.base_va == buf.addr
                    &&& forall|j: int|
                        0 <= j < L1_ENTRIES && j != idx ==> final(self).mtt.l1_table[j] == old(
                            self,
                        ).mtt.l1_table[j]
                    &&& forall|q: int|
                        0 <= q < n ==> lookup(pt, chunk_va(buf.addr, q) as u64) is Some
                    &&& forall|va: u64|
                        buf.addr <= va < buf.addr + buf.length
                            ==> #[trigger] final(self).resolve_spec(mr.lkey, va) == lookup(
                            pt,
                            chunk_va(buf.addr, (va - buf.addr) as int / (PAGE_BYTES as int)) as u64,
                        )
                    // no other region's resolution changes: the fresh
                    // second-level table lies apart from every live one
                    &&& forall|key: u32, va: u64|
                        key_index(key) != idx ==> #[trigger] final(self).resolve_spec(key, va)
                            == old(self).resolve_spec(key, va)
                })
                &&& final(self).qps == old(self).qps
                &&& final(self).cqs == old(self).cqs
                &&& final(self).rb_allocator == old(self).rb_allocator
                &&& final(self).page_table == old(self).page_table
            }),
    {
        let ghost pre = *old(self);
        let ghost n = chunk_count(buf.length as int);
        if self.key_count >= KEY_MAX - 1 {
            return Err(DeviceError::OutOfMemory);
        }
        let num_pages = (buf.length - 1) / PAGE_BYTES + 1;
        proof {
            lemma_fundamental_div_mod(buf.length as int - 1, PAGE_BYTES as int);
            assert(num_pages == n);
            assert(1 <= num_pages <= 2048);
        }
        let mut pas: Vec<u64> = Vec::new();
        let mut k: usize = 0;
        while k < num_pages
            invariant
                k <= num_pages,
                pas.len() == k,
                *self == *old(self),
                forall|q: int|
                    0 <= q < k ==> Some(#[trigger] pas[q]) == lookup(
                        pre.page_table.entries@,
                        chunk_va(buf.addr, q) as u64,
                    ),
            decreases num_pages - k,
        {
            proof {
                lemma_fundamental_div_mod(buf.length as int - 1, PAGE_BYTES as int);
            }
            let va = buf.addr + (k as u64) * (PAGE_BYTES as u64);
            match self.page_table.va_to_pa(va) {
                Ok(pa) => {
                    pas.push(pa);
                },
                Err(_) => {
                    proof {
                        assert(va == chunk_va(buf.addr, k as int) as u64);
                        assert(lookup(pre.page_table.entries@, chunk_va(buf.addr, k as int) as u64)
                            is None);
                    }
                    return Err(DeviceError::TranslationFailed);
                },
            }
            k += 1;
        }
        proof {
            assert forall|q: int| 0 <= q < n implies lookup(
                pre.page_table.entries@,
                chunk_va(buf.addr, q) as u64,
            ) is Some by {
                assert(Some(pas[q]) == lookup(
                    pre.page_table.entries@,
                    chunk_va(buf.addr, q) as u64,
                ));
            }
        }
        let table = match self.l2_allocator.alloc_table(num_pages) {
            Ok(t) => t,
            Err(_) => {
                return Err(DeviceError::OutOfMemory);
            },
        };
        let lkey = self.gen_key();
        let rkey = self.gen_key();
        proof {
            lemma_shr8(lkey);
        }
        let l1_index = (lkey >> 8) as usize;
        let ghost arena_mid = self.l2_allocator.arena@;
        let mut k: usize = 0;
        while k < num_pages
            invariant
                k <= num_pages,
                num_pages == pas.len(),
                table.offset + num_pages <= ARENA_ENTRIES,
                self.l2_allocator.wf(),
                self.l2_allocator.live@ == pre.l2_allocator.live@.insert(
                    (table.offset as int, table.order as int),
                ),
                forall|q: int|
                    0 <= q < k ==> (#[trigger] self.l2_allocator.arena[table.offset + q]).pa
                        == pas[q],
                forall|q: int|
                    0 <= q < ARENA_ENTRIES && !(table.offset <= q < table.offset + k)
                        ==> #[trigger] self.l2_allocator.arena[q] == arena_mid[q],
                self.mtt == old(self).mtt,
                self.qps == old(self).qps,
                self.cqs == old(self).cqs,
                self.rb_allocator == old(self).rb_allocator,
                self.page_table == old(self).page_table,
                self.key_count == pre.key_count + 2,
            decreases num_pages - k,
        {
            let pa = pas[k];
            self.l2_allocator.set_entry(table.offset + k, pa);
            k += 1;
        }
        let entry = L1Entry::new(lkey, table.offset as u32, num_pages as u32, buf.addr);
        self.mtt.l1_table.set(l1_index, entry);
        proof {
            let idx = l1_index as int;
            assert(pre.mtt.l1_table[idx].size == 0) by {
                if pre.mtt.l1_table[idx].size != 0 {
                    assert(pre.live_entry_wf(idx));
                }
            }
            let idx2 = key_index(rkey);
            assert(idx2 == pre.key_count + 2) by {
                assert(((pre.key_count + 2) as int * 256) / 256 == pre.key_count + 2)
                    by (nonlinear_arith);
            }
            assert(pre.mtt.l1_table[idx2].size == 0) by {
                if pre.mtt.l1_table[idx2].size != 0 {
                    assert(pre.live_entry_wf(idx2));
                }
            }
            assert(self.live_entry_wf(idx)) by {
                assert(lkey == 256 * idx) by (nonlinear_arith)
                    requires
                        lkey == (pre.key_count + 1) * 256,
                        idx == pre.key_count + 1,
                ;
                assert(is_table_order(num_pages as nat, table.order as nat));
                assert(self.l2_allocator.live@.contains((table.offset as int, table.order as int)));
            }
            assert forall|i: int|
                0 <= i < L1_ENTRIES && (#[trigger] self.mtt.l1_table[i]).size != 0 implies self.live_entry_wf(
                i,
            ) by {
                if i != idx {
                    assert(pre.mtt.l1_table[i] == self.mtt.l1_table[i]);
                    assert(pre.live_entry_wf(i));
                }
            }
            // the fresh table's block lies apart from every live
            // entry's block, so its offset collides with none of them
            assert forall|i1: int, i2: int|
                0 <= i1 < L1_ENTRIES && 0 <= i2 < L1_ENTRIES && i1 != i2 && (
            #[trigger] self.mtt.l1_table[i1]).size != 0 && (#[trigger] self.mtt.l1_table[i2]).size
                != 0 implies self.mtt.l1_table[i1].offset != self.mtt.l1_table[i2].offset by {
                if i1 != idx && i2 != idx {
                    assert(pre.mtt.l1_table[i1] == self.mtt.l1_table[i1]);
                    assert(pre.mtt.l1_table[i2] == self.mtt.l1_table[i2]);
                } else {
                    let j = if i1 == idx {
                        i2
                    } else {
                        i1
                    };
                    assert(pre.live_entry_wf(j));
                    let ej = pre.mtt.l1_table[j];
                    let kj = choose|k: nat|
                        k <= MAX_ORDER && #[trigger] is_table_order(ej.size as nat, k) && ej.offset
                            + bsize(k) <= ARENA_ENTRIES && pre.l2_allocator.live@.contains(
                            (ej.offset as int, k as int),
                        );
                    lemma_bsize_pos(kj);
                    lemma_bsize_pos(table.order as nat);
                    assert(blk_disjoint(table.offset as int, table.order as nat, ej.offset as int, kj));
                }
            }
            assert forall|va: u64| buf.addr <= va < buf.addr + buf.length implies #[trigger] self.resolve_spec(
                lkey,
                va,
            ) == lookup(
                pre.page_table.entries@,
                chunk_va(buf.addr, (va - buf.addr) as int / (PAGE_BYTES as int)) as u64,
            ) by {
                let pi = (va - buf.addr) as int / (PAGE_BYTES as int);
                lemma_div_is_ordered(
                    (va - buf.addr) as int,
                    buf.length as int - 1,
                    PAGE_BYTES as int,
                );
                assert(0 <= pi < num_pages);
                assert((self.l2_allocator.arena[table.offset + pi]).pa == pas[pi]);
                assert(Some(pas[pi]) == lookup(
                    pre.page_table.entries@,
                    chunk_va(buf.addr, pi) as u64,
                ));
            }
            assert forall|key: u32, va: u64|
                key_index(key) != idx implies #[trigger] self.resolve_spec(key, va)
                == pre.resolve_spec(key, va) by {
                let i2 = key_index(key);
                if 0 <= i2 < L1_ENTRIES {
                    assert(self.mtt.l1_table[i2] == pre.mtt.l1_table[i2]);
                    let e = pre.mtt.l1_table[i2];
                    if e.size != 0 && va >= e.base_va {
                        let pi = (va - e.base_va) as int / (PAGE_BYTES as int);
                        lemma_div_is_ordered(0, (va - e.base_va) as int, PAGE_BYTES as int);
                        if 0 <= pi < e.size {
                            assert(pre.live_entry_wf(i2));
                            let kj = choose|k: nat|
                                k <= MAX_ORDER && #[trigger] is_table_order(e.size as nat, k)
                                    && e.offset + bsize(k) <= ARENA_ENTRIES
                                    && pre.l2_allocator.live@.contains((e.offset as int, k as int));
                            assert(blk_disjoint(
                                table.offset as int,
                                table.order as nat,
                                e.offset as int,
                                kj,
                            ));
                            assert(!(table.offset <= e.offset + pi < table.offset + num_pages));
                            assert(self.l2_allocator.arena[e.offset + pi] == pre.l2_allocator.arena[
                                e.offset + pi
                            ]);
                        }
                    }
                }
            }
        }
        Ok(IbvMr::new(buf.addr, buf.length as u32, access, lkey, rkey))
    }

    /// Deregisters a region: validates that the key currently names a
    /// registered region, frees its second-level table back to the
    /// buddy allocator, and clears the first-level slot, after which
    /// every resolve through the key yields `None`. A key that is not
    /// currently registered is refused with `UnknownRegion` and nothing
    /// changes.
    #[verifier::rlimit(50)]
    pub fn dereg_mr(&mut self, mr: IbvMr) -> (r: Result<(), DeviceError>)
        requires
            old(self).wf(),
        ensures
            final(self).wf(),
            final(self).qps == old(self).qps,
            final(self).cqs == old(self).cqs,
            final(self).rb_allocator == old(self).rb_allocator,
            final(self).page_table == old(self).page_table,
            final(self).key_count == old(self).key_count,
            final(self).l2_allocator.arena@ == old(self).l2_allocator.arena@,
            ({
                let i = key_index(mr.lkey);
                let registered = i < L1_ENTRIES && old(self).mtt.l1_table[i].size != 0 && old(
                    self,
                ).mtt.l1_table[i].key == mr.lkey;
                if registered {
                    &&& r is Ok
                    &&& final(self).mtt.l1_table[i].size == 0
                    &&& forall|j: int|
                        0 <= j < L1_ENTRIES && j != i ==> final(self).mtt.l1_table[j] == old(
                            self,
                        ).mtt.l1_table[j]
                    &&& forall|va: u64| final(self).resolve_spec(mr.lkey, va) is None
                    // the region's second-level table went back to the
                    // buddy allocator: a free block covers its range
                    &&& exists|k: int, fe: int|
                        0 <= k <= MAX_ORDER && 0 <= fe < final(self).l2_allocator.free[k].len()
                            && (#[trigger] final(self).l2_allocator.free[k][fe]) <= old(
                            self,
                        ).mtt.l1_table[i].offset && old(self).mtt.l1_table[i].offset + old(
                            self,
                        ).mtt.l1_table[i].size <= final(self).l2_allocator.free[k][fe] + bsize(
                            k as nat,
                        )
                } else {
                    &&& r == Err::<(), DeviceError>(DeviceError::UnknownRegion)
                    &&& final(self).mtt.l1_table@ == old(self).mtt.l1_table@
                    &&& final(self).l2_allocator.free@ == old(self).l2_allocator.free@
                }
            }),
    {
        proof {
            lemma_shr8(mr.lkey);
        }
        let l1_index = (mr.lkey >> 8) as usize;
        if l1_index >= L1_ENTRIES {
            return Err(DeviceError::UnknownRegion);
        }
        let entry = self.mtt.l1_table[l1_index];
        if entry.size() == 0 || entry.key() != mr.lkey {
            return Err(DeviceError::UnknownRegion);
        }
        proof {
            assert(self.live_entry_wf(l1_index as int));
        }
        // re-resolve the region's first page for validation before the
        // table is torn down
        let _ = self.walk(mr.addr(), mr.lkey());
        let order = order_for(entry.size() as usize);
        proof {
            let e = self.mtt.l1_table[l1_index as int];
            let k = choose|k: nat|
                k <= MAX_ORDER && #[trigger] is_table_order(e.size as nat, k) && e.offset + bsize(k)
                    <= ARENA_ENTRIES && self.l2_allocator.live@.contains((e.offset as int, k as int));
            lemma_table_order_unique(e.size as nat, k, order as nat);
            assert(self.l2_allocator.live@.contains((e.offset as int, order as int)));
        }
        let table = L2Table { offset: entry.offset() as usize, len: entry.size() as usize, order };
        let _ = self.l2_allocator.dealloc_table(table);
        proof {
            let eoff = entry.offset as int;
            let esize = entry.size as int;
            let (k, fe) = choose|k: int, fe: int|
                table.order <= k <= MAX_ORDER && 0 <= fe < self.l2_allocator.free[k].len() && (
                #[trigger] self.l2_allocator.free[k][fe]) <= eoff && eoff + bsize(
                    table.order as nat,
                ) <= self.l2_allocator.free[k][fe] + bsize(k as nat);
            assert(esize <= bsize(order as nat));
            assert(0 <= k <= MAX_ORDER && 0 <= fe < self.l2_allocator.free[k].len()
                && self.l2_allocator.free[k][fe] <= eoff && eoff + esize
                <= self.l2_allocator.free[k][fe] + bsize(k as nat));
        }
        let cleared = L1Entry::new(0, 0, 0, 0);
        self.mtt.l1_table.set(l1_index, cleared);
        proof {
            let ghost pre = *old(self);
            assert forall|i: int|
                0 <= i < L1_ENTRIES && (#[trigger] self.mtt.l1_table[i]).size != 0 implies self.live_entry_wf(
                i,
            ) by {
                assert(pre.mtt.l1_table[i] == self.mtt.l1_table[i]);
                assert(pre.live_entry_wf(i));
            }
            let e = pre.mtt.l1_table[l1_index as int];
            assert(exists|k: int, fe: int|
                0 <= k <= MAX_ORDER && 0 <= fe < self.l2_allocator.free[k].len() && (
                #[trigger] self.l2_allocator.free[k][fe]) <= e.offset && e.offset + e.size
                    <= self.l2_allocator.free[k][fe] + bsize(k as nat));
        }
        Ok(())
    }

    /// Walks the translation tables: resolves `key` and `va` to the
    /// physical address of the backing page, exactly as
    /// `resolve_spec` states.
    pub fn walk(&self, va: u64, key: u32) -> (r: Option<u64>)
        requires
            self.wf(),
        ensures
            r == self.resolve_spec(key, va),
    {
        proof {
            lemma_shr8(key);
        }
        let l1_index = (key >> 8) as usize;
        if l1_index >= L1_ENTRIES {
            return None;
        }
        let entry = self.mtt.l1_table[l1_index];
        if entry.size() == 0 {
            return None;
        }
        if va < entry.base_va() {
            return None;
        }
        proof {
            lemma_shr21((va - entry.base_va) as u64);
            assert(self.live_entry_wf(l1_index as int));
        }
        let page_index = (va - entry.base_va()) >> (HUGE_PAGE_2MB as u64);
        if !Self::validates_entry(&entry, page_index) {
            return None;
        }
        let idx = entry.offset() as usize + page_index as usize;
        Some(self.get_entry_pa(idx))
    }

    fn get_entry_pa(&self, i: usize) -> (pa: u64)
        requires
            self.wf(),
            i < ARENA_ENTRIES,
        ensures
            pa == self.l2_allocator.arena[i as int].pa,
    {
        let e = self.l2_allocator.get_entry(i);
        e.pa()
    }

    /// A first-level entry admits the page index exactly when the slot
    /// is present (`size != 0`, size doubling as the present flag) and
    /// the index lies inside the region.
    pub fn validates_entry(entry: &L1Entry, page_offset: u64) -> (b: bool)
        ensures
            b == (entry.size != 0 && page_offset < entry.size),
    {
        entry.size() != 0 && page_offset < entry.size() as u64
    }

    /// Copies one registered region's second-level table out of the
    /// arena, for inspection.
    pub fn get_l2_table(&self, entry: &L1Entry) -> (t: Vec<L2Entry>)
        requires
            self.wf(),
            entry.offset + entry.size <= ARENA_ENTRIES,
        ensures
            t.len() == entry.size,
            forall|q: int|
                0 <= q < entry.size ==> #[trigger] t[q] == self.l2_allocator.arena[entry.offset
                    + q],
    {
        let mut t: Vec<L2Entry> = Vec::new();
        let mut q: usize = 0;
        let size = entry.size() as usize;
        let off = entry.offset() as usize;
        while q < size
            invariant
                q <= size,
                t.len() == q,
                size == entry.size,
                off == entry.offset,
                off + size <= ARENA_ENTRIES,
                self.wf(),
                forall|p: int|
                    0 <= p < q ==> #[trigger] t[p] == self.l2_allocator.arena[entry.offset + p],
            decreases size - q,
        {
            t.push(self.l2_allocator.get_entry(off + q));
            q += 1;
        }
        t
    }

    /// Produces descriptors into one queue pair's send ring; the rest
    /// of the device is untouched. Mirrors the ring's all-or-nothing
    /// contract.
    pub fn produce_send(&mut self, qp: usize, descs: Vec<Sqd>) -> (r: Result<(), RingError>)
        requires
            old(self).wf(),
            qp < old(self).qps.len(),
        ensures
            final(self).wf(),
            final(self).qps.len() == old(self).qps.len(),
            forall|j: int|
                0 <= j < old(self).qps.len() && j != qp ==> final(self).qps[j] == old(self).qps[j],
            final(self).qps[qp as int].recv == old(self).qps[qp as int].recv,
            final(self).cqs == old(self).cqs,
            final(self).mtt == old(self).mtt,
            final(self).rb_allocator == old(self).rb_allocator,
            final(self).l2_allocator == old(self).l2_allocator,
            final(self).page_table == old(self).page_table,
            final(self).key_count == old(self).key_count,
            ({
                let s0 = old(self).qps[qp as int].send;
                let s1 = final(self).qps[qp as int].send;
                if descs.len() > s0.ctx.free_slots() {
                    &&& r == Err::<(), RingError>(RingError::WouldBlock)
                    &&& s1.ctx == s0.ctx
                    &&& s1.buf@ == s0.buf@
                } else {
                    &&& r == Ok::<(), RingError>(())
                    &&& s1.pending() == s0.pending() + descs@
                    &&& s1.ctx.head == s0.ctx.head
                }
            }),
    {
        let qref = vec_index_mut(&mut self.qps, qp);
        qref.send.produce(descs)
    }

    /// Posts receive descriptors into one queue pair's receive ring;
    /// the rest of the device is untouched. Mirrors the ring's
    /// all-or-nothing contract.
    pub fn produce_recv(&mut self, qp: usize, descs: Vec<Rqd>) -> (r: Result<(), RingError>)
        requires
            old(self).wf(),
            qp < old(self).qps.len(),
        ensures
            final(self).wf(),
            final(self).qps.len() == old(self).qps.len(),
            forall|j: int|
                0 <= j < old(self).qps.len() && j != qp ==> final(self).qps[j] == old(self).qps[j],
            final(self).qps[qp as int].send == old(self).qps[qp as int].send,
            final(self).cqs == old(self).cqs,
            final(self).mtt == old(self).mtt,
            ({
                let s0 = old(self).qps[qp as int].recv;
                let s1 = final(self).qps[qp as int].recv;
                if descs.len() > s0.ctx.free_slots() {
                    &&& r == Err::<(), RingError>(RingError::WouldBlock)
                    &&& s1.ctx == s0.ctx
                    &&& s1.buf@ == s0.buf@
                } else {
                    &&& r == Ok::<(), RingError>(())
                    &&& s1.pending() == s0.pending() + descs@
                    &&& s1.ctx.head == s0.ctx.head
                }
            }),
    {
        let qref = vec_index_mut(&mut self.qps, qp);
        qref.recv.produce(descs)
    }

    /// Free slots of one queue pair's send ring.
    pub fn send_num_free(&self, qp: usize) -> (n: usize)
        requires
            self.wf(),
            qp < self.qps.len(),
        ensures
            n == self.qps[qp as int].send.ctx.free_slots(),
    {
        self.qps[qp].send.num_free()
    }

    /// Consumes the next valid completion from one completion queue;
    /// the rest of the device is untouched. Mirrors the ring's
    /// contract.
    pub fn consume_cq(&mut self, cq: usize) -> (r: Option<Cqd>)
        requires
            old(self).wf(),
            cq < old(self).cqs.len(),
        ensures
            final(self).wf(),
            final(self).cqs.len() == old(self).cqs.len(),
            forall|j: int|
                0 <= j < old(self).cqs.len() && j != cq ==> final(self).cqs[j] == old(self).cqs[j],
            final(self).qps == old(self).qps,
            final(self).mtt == old(self).mtt,
            ({
                let p = old(self).cqs[cq as int].inner.pending();
                if p.len() > 0 && p[0].valid_spec() {
                    r == Some(p[0]) && final(self).cqs[cq as int].inner.pending() == p.subrange(
                        1,
                        p.len() as int,
                    )
                } else {
                    r is None && final(self).cqs[cq as int].inner.buf@ == old(
                        self,
                    ).cqs[cq as int].inner.buf@
                }
            }),
    {
        let cref = vec_index_mut(&mut self.cqs, cq);
        cref.inner.consume()
    }
}

/// Law of key generation: distinct generation counters yield distinct,
/// non-zero keys, each decoding to a valid, in-bounds first-level
/// index.
pub proof fn lemma_keys_distinct(c1: int, c2: int)
    requires
        0 <= c1 < KEY_MAX,
        0 <= c2 < KEY_MAX,
        c1 != c2,
    ensures
        key_spec(c1) != key_spec(c2),
        key_spec(c1) != 0,
        0 < key_spec(c1) / 256 < L1_ENTRIES,
{
    assert((c1 + 1) * 256 != (c2 + 1) * 256) by (nonlinear_arith)
        requires
            c1 != c2,
    ;
    assert((c1 + 1) * 256 / 256 == c1 + 1) by (nonlinear_arith);
    assert((c1 + 1) * 256 > 0) by (nonlinear_arith)
        requires
            c1 >= 0,
    ;
}

} // verus!
