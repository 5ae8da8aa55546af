use rdma_core::allocator::{L2Allocator, RbAllocator, RingBuf};
use rdma_core::device::Sqd;
use rdma_core::ring::{Descriptor, RdmaRing};
use rdma_core::{AllocError, RingError};

fn valid_desc(payload: u64) -> Sqd {
    Sqd { f: [payload, 1, 0, 0] }
}

#[test]
fn fresh_ring_is_empty() {
    let mut ring: RdmaRing<Sqd> = RdmaRing::new(RingBuf::new(0, 0));
    assert_eq!(ring.num_free(), 1023);
    assert_eq!(ring.ctx.head(), 0);
    assert_eq!(ring.ctx.tail(), 0);
    assert!(ring.consume().is_none());
    assert_eq!(ring.num_free(), 1023);
}

#[test]
fn produce_advances_tail_by_descriptor_bytes() {
    let mut ring: RdmaRing<Sqd> = RdmaRing::new(RingBuf::new(0, 0));
    ring.produce(vec![valid_desc(7)]).unwrap();
    assert_eq!(ring.ctx.tail(), 32);
    assert_eq!(ring.ctx.head(), 0);
    assert_eq!(ring.ctx.tail_idx(), 1);
    let d = ring.consume().unwrap();
    assert_eq!(d.f[0], 7);
    assert_eq!(ring.ctx.head(), 32);
}

#[test]
fn produce_consume_fifo_order() {
    let mut ring: RdmaRing<Sqd> = RdmaRing::new(RingBuf::new(0, 0));
    ring.produce(vec![valid_desc(10), valid_desc(11), valid_desc(12)]).unwrap();
    assert_eq!(ring.num_free(), 1020);
    assert_eq!(ring.consume().unwrap().f[0], 10);
    assert_eq!(ring.consume().unwrap().f[0], 11);
    assert_eq!(ring.consume().unwrap().f[0], 12);
    assert!(ring.consume().is_none());
}

#[test]
fn produce_insufficient_capacity_would_block() {
    let mut ring: RdmaRing<Sqd> = RdmaRing::new(RingBuf::new(0, 0));
    let batch: Vec<Sqd> = (0..1023).map(|i| valid_desc(i as u64)).collect();
    ring.produce(batch).unwrap();
    assert_eq!(ring.num_free(), 0);
    let head_before = ring.ctx.head();
    let tail_before = ring.ctx.tail();
    let r = ring.produce(vec![valid_desc(99)]);
    assert_eq!(r, Err(RingError::WouldBlock));
    assert_eq!(ring.ctx.head(), head_before);
    assert_eq!(ring.ctx.tail(), tail_before);
    assert_eq!(ring.num_free(), 0);
}

#[test]
fn produce_is_all_or_nothing() {
    let mut ring: RdmaRing<Sqd> = RdmaRing::new(RingBuf::new(0, 0));
    let batch: Vec<Sqd> = (0..1022).map(|i| valid_desc(i as u64)).collect();
    ring.produce(batch).unwrap();
    assert_eq!(ring.num_free(), 1);
    // two descriptors do not fit; not even the first may be written
    let r = ring.produce(vec![valid_desc(500), valid_desc(501)]);
    assert_eq!(r, Err(RingError::WouldBlock));
    assert_eq!(ring.num_free(), 1);
    // one still fits
    ring.produce(vec![valid_desc(502)]).unwrap();
    assert_eq!(ring.num_free(), 0);
}

#[test]
fn ring_wraparound_keeps_fifo_order() {
    let mut ring: RdmaRing<Sqd> = RdmaRing::new(RingBuf::new(0, 0));
    // more than two full capacity cycles, in batches that do not divide
    // the capacity, so the cursors wrap mid-batch
    let mut produced: u64 = 0;
    let mut consumed: u64 = 0;
    for _ in 0..5 {
        let batch: Vec<Sqd> = (0..700).map(|i| valid_desc(produced + i as u64)).collect();
        ring.produce(batch).unwrap();
        produced += 700;
        for _ in 0..700 {
            let d = ring.consume().expect("a produced descriptor must be consumable");
            assert_eq!(d.f[0], consumed);
            consumed += 1;
        }
    }
    assert_eq!(consumed, 3500);
    assert!(ring.consume().is_none());
}

#[test]
fn consume_stops_at_invalid_descriptor() {
    let mut ring: RdmaRing<Sqd> = RdmaRing::new(RingBuf::new(0, 0));
    // an entry whose valid bit is clear is not yet produced from the
    // consumer's point of view
    ring.produce(vec![Sqd { f: [42, 0, 0, 0] }]).unwrap();
    assert!(ring.consume().is_none());
    assert_eq!(ring.ctx.head(), 0);
}

#[test]
fn descriptor_valid_bit() {
    assert!(valid_desc(1).f_valid());
    assert!(!Sqd { f: [5, 0, 5, 5] }.f_valid());
    assert!(!Sqd::zeroed().f_valid());
    let mut d = valid_desc(3);
    d.invalidate();
    assert!(!d.f_valid());
    assert_eq!(d.f[0], 3);
}

#[test]
fn slab_released_buffer_is_zero_filled_on_reuse() {
    let mut a = RbAllocator::new();
    let rb = a.alloc_rb().unwrap();
    let (page, slot) = (rb.page, rb.slot);
    // a fresh buffer is zero-filled
    assert_eq!(a.read_byte(&rb, 5), Some(0));
    assert!(a.write_byte(&rb, 5, 0xAB));
    assert_eq!(a.read_byte(&rb, 5), Some(0xAB));
    assert!(a.dealloc(rb));
    // the same slot comes back, and the dirty byte is gone
    let rb2 = a.alloc_rb().unwrap();
    assert_eq!((rb2.page, rb2.slot), (page, slot));
    assert_eq!(a.read_byte(&rb2, 5), Some(0));
}

#[test]
fn slab_refuses_foreign_and_stale_buffers() {
    let mut a = RbAllocator::new();
    let rb = a.alloc_rb().unwrap();
    let slot = rb.slot;
    // foreign page, out-of-range slot
    assert!(!a.dealloc(RingBuf::new(7, 0)));
    assert!(!a.dealloc(RingBuf::new(0, 99)));
    // a free (not live) slot is refused too
    let other = if slot == 0 { 1 } else { 0 };
    assert!(!a.dealloc(RingBuf::new(0, other)));
    assert!(a.dealloc(rb));
    // double release is refused, and so is writing through a stale handle
    assert!(!a.dealloc(RingBuf::new(0, slot)));
    assert!(!a.write_byte(&RingBuf::new(0, slot), 0, 1));
    assert_eq!(a.read_byte(&RingBuf::new(0, slot), 0), None);
}

#[test]
fn slab_live_slots_are_distinct_and_new_page_grows() {
    let mut a = RbAllocator::new();
    let mut seen: Vec<(usize, usize)> = Vec::new();
    for _ in 0..65 {
        let rb = a.alloc_rb().unwrap();
        assert!(rb.slot < 64);
        assert!(!seen.contains(&(rb.page, rb.slot)));
        seen.push((rb.page, rb.slot));
    }
    // 64 slots per page: the 65th allocation needs a second page
    assert_eq!(a.pages.len(), 2);
}

#[test]
fn buddy_allocates_disjoint_blocks() {
    let mut b = L2Allocator::new();
    let t1 = b.alloc_table(4).unwrap();
    assert_eq!(t1.len, 4);
    assert!(t1.offset + 4 <= 4096);
    let t2 = b.alloc_table(5).unwrap();
    // 4 entries occupy an order-2 block, 5 entries an order-3 block
    let end1 = t1.offset + 4;
    let end2 = t2.offset + 8;
    assert!(end1 <= t2.offset || end2 <= t1.offset);
}

#[test]
fn buddy_free_coalesces_back_to_full_arena() {
    let mut b = L2Allocator::new();
    let t1 = b.alloc_table(16).unwrap();
    let t2 = b.alloc_table(100).unwrap();
    b.dealloc_table(t2).unwrap();
    b.dealloc_table(t1).unwrap();
    // after both frees the buddies have merged back into one maximal
    // block, so the whole arena can be taken in one piece
    let whole = b.alloc_table(4096).unwrap();
    assert_eq!(whole.offset, 0);
}

#[test]
fn buddy_out_of_memory() {
    let mut b = L2Allocator::new();
    let whole = b.alloc_table(4096).unwrap();
    assert!(matches!(b.alloc_table(1), Err(AllocError::OutOfMemory)));
    b.dealloc_table(whole).unwrap();
    assert!(b.alloc_table(1).is_ok());
    // a request beyond the arena can never be served
    assert!(matches!(b.alloc_table(5000), Err(AllocError::OutOfMemory)));
}
