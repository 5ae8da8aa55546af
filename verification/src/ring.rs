//! Fixed-capacity descriptor rings shared between host software and a
//! hardware consumer or producer. A ring is a cyclic array of
//! fixed-size descriptors with a producer cursor (`tail`) and a
//! consumer cursor (`head`); the valid bit inside each descriptor, not
//! mutual exclusion, is the handshake between the two sides.

use vstd::prelude::*;

use crate::allocator::RingBuf;
use crate::{RingError, RING_ENTRIES, SLOTS_PER_PAGE};

verus! {

/// Byte capacity of one ring: `2^(DESC_SIZE + RING_SIZE)`.
pub const SIZE: u32 = 32768;

/// Bytes of one descriptor: `2^DESC_SIZE`.
pub const DESC_BYTES: u32 = 32;

/// Descriptor count of one ring: `2^RING_SIZE`.
pub const ENTRIES: u32 = 1024;

/// One ring entry. Implementors are the concrete descriptor layouts;
/// the valid bit is the only field the ring itself interprets.
pub trait Descriptor: Sized + Copy {
    /// Whether the entry's valid bit is set.
    spec fn valid_spec(self) -> bool;

    /// Reads the valid bit.
    fn f_valid(&self) -> (b: bool)
        ensures
            b == self.valid_spec(),
    ;

    /// The all-zero descriptor. Its valid bit is clear, which matches
    /// the zero-filled backing slot a fresh ring occupies.
    fn zeroed() -> (d: Self)
        ensures
            !d.valid_spec(),
    ;

    /// Clears the valid bit: the consumer's half of the handshake,
    /// marking the slot as no longer holding a live entry.
    fn invalidate(&mut self)
        ensures
            !final(self).valid_spec(),
    ;
}

/// The slot index at cyclic offset `k` past `h`.
pub open spec fn slot_of(h: int, k: int) -> int {
    if h + k < ENTRIES { h + k } else { h + k - ENTRIES }
}

/// The cyclic distance from `h` forward to `j`.
pub open spec fn dist(h: int, j: int) -> int {
    if j >= h { j - h } else { ENTRIES - h + j }
}

/// The cursor value after advancing one descriptor, wrapping at the
/// ring's capacity.
pub open spec fn wrap_inc(x: u32) -> u32 {
    if x + 1 == ENTRIES { 0 } else { (x + 1) as u32 }
}

/// The cursors of one ring plus the ring's base address for the
/// hardware side. The fields count descriptor slots; the byte-offset
/// face (`head()`/`tail()`) is the slot count times the descriptor
/// size, so the exposed offsets are always multiples of the descriptor
/// size and wrap modulo the ring's byte capacity. `tail` is advanced
/// only by the producer, `head` only by the consumer.
pub struct RingCtx {
    pub head: u32,
    pub tail: u32,
    pub pa: u64,
}

impl RingCtx {
    pub open spec fn wf(self) -> bool {
        self.head < ENTRIES && self.tail < ENTRIES
    }

    /// Count of pending (produced, not yet consumed) descriptors.
    pub open spec fn used_slots(self) -> int {
        if self.tail >= self.head {
            self.tail - self.head
        } else {
            ENTRIES - self.head + self.tail
        }
    }

    /// Free descriptor slots. One slot always stays unused, so a full
    /// ring is distinguishable from an empty one and the producer can
    /// never run the consumer over.
    pub open spec fn free_slots(self) -> int {
        ENTRIES - 1 - self.used_slots()
    }

    pub fn new(pa: u64) -> (r: RingCtx)
        ensures
            r.head == 0,
            r.tail == 0,
            r.pa == pa,
            r.wf(),
    {
        RingCtx { head: 0, tail: 0, pa }
    }

    /// Consumer cursor as a byte offset into the descriptor array.
    pub fn head(&self) -> (b: u32)
        requires
            self.wf(),
        ensures
            b == self.head * DESC_BYTES,
    {
        self.head * DESC_BYTES
    }

    /// Producer cursor as a byte offset into the descriptor array.
    pub fn tail(&self) -> (b: u32)
        requires
            self.wf(),
        ensures
            b == self.tail * DESC_BYTES,
    {
        self.tail * DESC_BYTES
    }

    /// Consumer cursor as a descriptor index.
    pub fn head_idx(&self) -> (i: usize)
        ensures
            i == self.head,
    {
        self.head as usize
    }

    /// Producer cursor as a descriptor index.
    pub fn tail_idx(&self) -> (i: usize)
        ensures
            i == self.tail,
    {
        self.tail as usize
    }

    pub fn inc_head(&mut self)
        requires
            old(self).wf(),
        ensures
            final(self).wf(),
            final(self).head == wrap_inc(old(self).head),
            final(self).tail == old(self).tail,
            final(self).pa == old(self).pa,
    {
        Self::inc_wrap(&mut self.head)
    }

    pub fn inc_tail(&mut self)
        requires
            old(self).wf(),
        ensures
            final(self).wf(),
            final(self).tail == wrap_inc(old(self).tail),
            final(self).head == old(self).head,
            final(self).pa == old(self).pa,
    {
        Self::inc_wrap(&mut self.tail)
    }

    /// Advances one cursor by one descriptor, wrapping at capacity.
    pub fn inc_wrap(x: &mut u32)
        requires
            *old(x) < ENTRIES,
        ensures
            *final(x) == wrap_inc(*old(x)),
    {
        if *x + 1 == ENTRIES {
            *x = 0;
        } else {
            *x = *x + 1;
        }
    }
}

/// A fixed-capacity descriptor ring: the typed view of exactly one
/// slab slot, which it owns exclusively through `backing`.
pub struct RdmaRing<Desc> {
    pub ctx: RingCtx,
    pub buf: Vec<Desc>,
    pub backing: RingBuf,
}

impl<Desc: Descriptor> RdmaRing<Desc> {
    /// The slot at cyclic distance below the pending count from the
    /// consumer cursor holds a pending descriptor.
    pub open spec fn slot_pending(self, j: int) -> bool {
        dist(self.ctx.head as int, j) < self.ctx.used_slots()
    }

    /// Descriptors produced and not yet consumed, oldest first. This is
    /// the ring seen as the FIFO queue it implements; wraparound is
    /// invisible in this view.
    pub open spec fn pending(self) -> Seq<Desc> {
        Seq::new(
            self.ctx.used_slots() as nat,
            |k: int| self.buf[slot_of(self.ctx.head as int, k)],
        )
    }

    /// Well-formedness: cursors in range, the array exactly one ring,
    /// and every entry outside the pending window has a clear valid
    /// bit — the handshake invariant that lets the consumer trust the
    /// valid bit instead of the cursors of the other side.
    pub open spec fn wf(self) -> bool {
        &&& self.ctx.wf()
        &&& self.buf.len() == RING_ENTRIES
        &&& forall|j: int|
            0 <= j < RING_ENTRIES && !self.slot_pending(j) ==> !(
            #[trigger] self.buf[j]).valid_spec()
    }

    /// Wraps a freshly allocated, zero-filled backing slot as an empty
    /// ring. The typed array is built zeroed, the checked counterpart
    /// of the slot's zero bytes; the context's base address is the
    /// slot's slab-relative address.
    pub fn new(backing: RingBuf) -> (r: Self)
        requires
            backing.page < 0x80000000,
            backing.slot < SLOTS_PER_PAGE,
        ensures
            r.wf(),
            r.pending() == Seq::<Desc>::empty(),
            r.ctx.head == 0 && r.ctx.tail == 0,
            r.ctx.pa == backing.addr_spec(),
            r.backing == backing,
    {
        let pa = backing.addr();
        let mut buf: Vec<Desc> = Vec::new();
        let mut i: usize = 0;
        while i < RING_ENTRIES
            invariant
                i <= RING_ENTRIES,
                buf.len() == i,
                forall|j: int| 0 <= j < i ==> !(#[trigger] buf[j]).valid_spec(),
            decreases RING_ENTRIES - i,
        {
            buf.push(Desc::zeroed());
            i += 1;
        }
        let r = RdmaRing { ctx: RingCtx::new(pa), buf, backing };
        assert(r.pending() =~= Seq::<Desc>::empty());
        r
    }

    /// Surrenders the ring's backing slot, dropping the typed array,
    /// so the slot can be released to the slab allocator.
    pub fn into_backing(self) -> (rb: RingBuf)
        ensures
            rb == self.backing,
    {
        self.backing
    }

    /// Free descriptor slots: capacity minus the one reserved slot
    /// minus the pending count.
    pub fn num_free(&self) -> (n: usize)
        requires
            self.ctx.wf(),
        ensures
            n == self.ctx.free_slots(),
    {
        let used = if self.ctx.tail >= self.ctx.head {
            self.ctx.tail - self.ctx.head
        } else {
            ENTRIES - self.ctx.head + self.ctx.tail
        };
        ((ENTRIES - 1) - used) as usize
    }

    /// All-or-nothing append of descriptors at the producer cursor.
    /// With insufficient capacity nothing is written, the cursors are
    /// untouched and `WouldBlock` asks the caller to retry; otherwise
    /// every descriptor is written in order and the producer cursor
    /// advances with wraparound.
    #[verifier::loop_isolation(false)]
    pub fn produce(&mut self, descs: Vec<Desc>) -> (r: Result<(), RingError>)
        requires
            old(self).wf(),
        ensures
            final(self).wf(),
            final(self).ctx.pa == old(self).ctx.pa,
            final(self).backing == old(self).backing,
            if descs.len() > old(self).ctx.free_slots() {
                &&& r == Err::<(), RingError>(RingError::WouldBlock)
                &&& final(self).ctx == old(self).ctx
                &&& final(self).buf@ == old(self).buf@
            } else {
                &&& r == Ok::<(), RingError>(())
                &&& final(self).pending() == old(self).pending() + descs@
                &&& final(self).ctx.head == old(self).ctx.head
                &&& forall|j: int|
                    0 <= j < RING_ENTRIES && dist(old(self).ctx.tail as int, j) >= descs.len()
                        ==> final(self).buf[j] == old(self).buf[j]
            },
    {
        let len = descs.len();
        if self.num_free() < len {
            return Err(RingError::WouldBlock);
        }
        let ghost pre = *self;
        let mut i: usize = 0;
        while i < len
            invariant
                i <= len,
                self.ctx.wf(),
                self.buf.len() == RING_ENTRIES,
                self.ctx.head == pre.ctx.head,
                self.ctx.pa == pre.ctx.pa,
                self.backing == pre.backing,
                self.ctx.used_slots() == pre.ctx.used_slots() + i,
                forall|j: int|
                    0 <= j < RING_ENTRIES && dist(pre.ctx.tail as int, j) >= i ==> self.buf[j]
                        == pre.buf[j],
                self.pending() =~= pre.pending() + descs@.take(i as int),
                forall|j: int|
                    0 <= j < RING_ENTRIES && !self.slot_pending(j) ==> !(
                    #[trigger] self.buf[j]).valid_spec(),
            decreases len - i,
        {
            let ghost cur = *self;
            let idx = self.ctx.tail_idx();
            proof {
                assert(idx == slot_of(cur.ctx.head as int, cur.ctx.used_slots()));
                assert(dist(pre.ctx.tail as int, idx as int) == i);
            }
            let d = descs[i];
            self.buf.set(idx, d);
            self.ctx.inc_tail();
            proof {
                assert(self.ctx.used_slots() == cur.ctx.used_slots() + 1);
                assert forall|k: int|
                    0 <= k < self.ctx.used_slots() implies self.pending()[k] == (pre.pending()
                    + descs@.take(i + 1))[k] by {
                    if k < cur.ctx.used_slots() {
                        assert(slot_of(cur.ctx.head as int, k) != idx);
                        assert(cur.pending()[k] == self.pending()[k]);
                    } else {
                        assert(self.pending()[k] == descs@[i as int]);
                    }
                }
                assert(self.pending() =~= pre.pending() + descs@.take(i + 1));
                assert forall|j: int|
                    0 <= j < RING_ENTRIES && !self.slot_pending(j) implies !(
                #[trigger] self.buf[j]).valid_spec() by {
                    assert(j != idx);
                    assert(!cur.slot_pending(j));
                }
            }
            i += 1;
        }
        proof {
            assert(descs@.take(len as int) =~= descs@);
        }
        Ok(())
    }

    /// Polls the entry at the consumer cursor. When its valid bit is
    /// set, the entry is returned, its slot's valid bit is cleared and
    /// the consumer cursor advances; otherwise — the ring is empty, or
    /// the producing side has not yet validated the entry — nothing
    /// changes and `None` comes back. The consumer can therefore never
    /// obtain an entry that was not validly produced.
    pub fn consume(&mut self) -> (r: Option<Desc>)
        requires
            old(self).wf(),
        ensures
            final(self).wf(),
            final(self).ctx.pa == old(self).ctx.pa,
            final(self).backing == old(self).backing,
            ({
                let p = old(self).pending();
                if p.len() > 0 && p[0].valid_spec() {
                    &&& r == Some(p[0])
                    &&& final(self).pending() == p.subrange(1, p.len() as int)
                    &&& final(self).ctx.tail == old(self).ctx.tail
                    &&& forall|j: int|
                        0 <= j < RING_ENTRIES && j != old(self).ctx.head ==> final(self).buf[j]
                            == old(self).buf[j]
                } else {
                    &&& r is None
                    &&& final(self).ctx == old(self).ctx
                    &&& final(self).buf@ == old(self).buf@
                }
            }),
    {
        let ghost pre = *self;
        let head = self.ctx.head_idx();
        let d = self.buf[head];
        if d.f_valid() {
            proof {
                assert(slot_of(pre.ctx.head as int, 0) == pre.ctx.head as int);
                if pre.ctx.used_slots() == 0 {
                    assert(!pre.slot_pending(pre.ctx.head as int));
                    assert(false);
                }
                assert(pre.pending()[0] == d);
            }
            let mut cleared = d;
            cleared.invalidate();
            self.buf.set(head, cleared);
            self.ctx.inc_head();
            proof {
                let ghost p = pre.pending();
                assert(self.ctx.used_slots() == pre.ctx.used_slots() - 1);
                assert forall|k: int|
                    0 <= k < self.ctx.used_slots() implies self.pending()[k] == p.subrange(
                    1,
                    p.len() as int,
                )[k] by {
                    assert(slot_of(self.ctx.head as int, k) == slot_of(pre.ctx.head as int, k + 1));
                    assert(slot_of(pre.ctx.head as int, k + 1) != pre.ctx.head as int);
                }
                assert(self.pending() =~= p.subrange(1, p.len() as int));
                assert forall|j: int|
                    0 <= j < RING_ENTRIES && !self.slot_pending(j) implies !(
                #[trigger] self.buf[j]).valid_spec() by {
                    if j != pre.ctx.head as int {
                        assert(!pre.slot_pending(j));
                    }
                }
            }
            Some(d)
        } else {
            proof {
                if pre.ctx.used_slots() > 0 {
                    assert(pre.pending()[0] == d);
                }
            }
            None
        }
    }
}

/// Law of the ring as a FIFO queue: producing appends to the pending
/// sequence without touching what is already queued, and consuming
/// removes exactly the front element, so descriptors leave the ring in
/// the order they entered it — also across wraparound, which the
/// cyclic pending view makes invisible.
pub proof fn lemma_ring_fifo<Desc>(p: Seq<Desc>, q: Seq<Desc>, k: int)
    requires
        0 <= k < p.len(),
    ensures
        (p + q).len() == p.len() + q.len(),
        (p + q)[k] == p[k],
        (p + q)[0] == p[0],
        (p + q).subrange(1, (p + q).len() as int) =~= p.subrange(1, p.len() as int) + q,
{
}

} // verus!
