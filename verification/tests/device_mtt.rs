use rdma_core::device::{RdmaDevice, Sqd};
use rdma_core::v2p::TranslationMap;
use rdma_core::verbs::{IbvAccess, IbvBuf};
use rdma_core::{DeviceError, RingError, TranslationError};

const MB: u64 = 1024 * 1024;

fn mapped(base_va: u64, base_pa: u64, pages: u64) -> TranslationMap {
    let mut tm = TranslationMap::new();
    let mut k = 0;
    while k < pages {
        tm.insert(base_va + k * 2 * MB, base_pa + k * 2 * MB);
        k += 1;
    }
    tm
}

fn valid_sqd(payload: u64) -> Sqd {
    Sqd { f: [payload, 1, 0, 0] }
}

#[test]
fn translation_map_lookup() {
    let mut tm = TranslationMap::new();
    assert_eq!(tm.va_to_pa(0x1000), Err(TranslationError::Unmapped));
    tm.insert(0x1000, 0x9000);
    assert_eq!(tm.va_to_pa(0x1000), Ok(0x9000));
    assert_eq!(tm.va_to_pa(0x2000), Err(TranslationError::Unmapped));
}

#[test]
fn register_8mb_region_and_resolve() {
    // an 8MB buffer: 4 huge-page chunks at V, backed at P
    let v = 0x4000_0000u64;
    let p = 0x1_2000_0000u64;
    let tm = mapped(v, p, 4);
    let mut dev = RdmaDevice::open(tm);
    let mr = dev
        .reg_mr(IbvBuf { addr: v, length: (8 * MB) as usize }, IbvAccess::RemoteRead.bit())
        .unwrap();
    assert_ne!(mr.lkey(), 0);
    assert_eq!(mr.length(), (8 * MB) as u32);
    assert_eq!(mr.access(), 4);
    // chunk 1 resolves to its physical address
    assert_eq!(dev.walk(v + 2 * MB, mr.lkey()), Some(p + 2 * MB));
    // an address out of the region's range resolves to nothing
    assert_eq!(dev.walk(v + 9 * MB, mr.lkey()), None);
}

#[test]
fn register_resolve_unregister_round_trip() {
    let v = 0x10_0000_0000u64;
    let p = 0x7000_0000u64;
    let tm = mapped(v, p, 2);
    let mut dev = RdmaDevice::open(tm);
    let mr = dev
        .reg_mr(IbvBuf { addr: v, length: (4 * MB) as usize }, IbvAccess::RemoteWrite.bit())
        .unwrap();
    // every address inside a chunk resolves to that chunk's base
    assert_eq!(dev.walk(v, mr.lkey()), Some(p));
    assert_eq!(dev.walk(v + 1, mr.lkey()), Some(p));
    assert_eq!(dev.walk(v + 2 * MB - 1, mr.lkey()), Some(p));
    assert_eq!(dev.walk(v + 2 * MB, mr.lkey()), Some(p + 2 * MB));
    assert_eq!(dev.walk(v + 4 * MB - 1, mr.lkey()), Some(p + 2 * MB));
    // below and beyond the region: nothing
    assert_eq!(dev.walk(v - 1, mr.lkey()), None);
    assert_eq!(dev.walk(v + 4 * MB, mr.lkey()), None);
    // after deregistration every resolve misses, and a second
    // deregistration is an unknown region
    dev.dereg_mr(mr).unwrap();
    assert_eq!(dev.walk(v, mr.lkey()), None);
    assert_eq!(dev.walk(v + 2 * MB, mr.lkey()), None);
    assert!(matches!(dev.dereg_mr(mr), Err(DeviceError::UnknownRegion)));
}

#[test]
fn register_unmapped_chunk_fails() {
    let v = 0x4000_0000u64;
    // only the first of two chunks is backed
    let tm = mapped(v, 0x9000_0000, 1);
    let mut dev = RdmaDevice::open(tm);
    let r = dev.reg_mr(IbvBuf { addr: v, length: (4 * MB) as usize }, IbvAccess::RemoteRead.bit());
    assert!(matches!(r, Err(DeviceError::TranslationFailed)));
    // the failed attempt left no trace: the single backed chunk can
    // still be registered
    let mr = dev
        .reg_mr(IbvBuf { addr: v, length: (2 * MB) as usize }, IbvAccess::RemoteRead.bit())
        .unwrap();
    // any address inside chunk 0 resolves to chunk 0's page address
    assert_eq!(dev.walk(v + MB, mr.lkey()), Some(0x9000_0000));
}

#[test]
fn generated_keys_are_distinct_nonzero_in_bounds() {
    let v = 0x4000_0000u64;
    let tm = mapped(v, 0x8000_0000, 64);
    let mut dev = RdmaDevice::open(tm);
    let mut keys: Vec<u32> = Vec::new();
    let mut k = 0u64;
    while k < 64 {
        let mr = dev
            .reg_mr(
                IbvBuf { addr: v + k * 2 * MB, length: (2 * MB) as usize },
                IbvAccess::LocalWrite.bit(),
            )
            .unwrap();
        keys.push(mr.lkey());
        keys.push(mr.rkey());
        k += 1;
    }
    for (i, key) in keys.iter().enumerate() {
        assert_ne!(*key, 0);
        assert!((key >> 8) < (1 << 20));
        for other in keys.iter().skip(i + 1) {
            assert_ne!(*key, *other);
        }
    }
}

#[test]
fn unknown_region_is_refused() {
    let tm = TranslationMap::new();
    let mut dev = RdmaDevice::open(tm);
    let forged = rdma_core::verbs::IbvMr::new(0x1000, 4096, 0, 0x1234_5600, 0x1234_5700);
    assert!(matches!(dev.dereg_mr(forged), Err(DeviceError::UnknownRegion)));
    assert_eq!(dev.walk(0x1000, 0x1234_5600), None);
}

#[test]
fn queue_pair_produce_and_backpressure() {
    let tm = TranslationMap::new();
    let mut dev = RdmaDevice::open(tm);
    let qp = dev.create_qp().unwrap();
    // a fresh send ring has 1023 free slots
    assert_eq!(dev.send_num_free(qp), 1023);
    let batch: Vec<Sqd> = (0..5u64).map(valid_sqd).collect();
    dev.produce_send(qp, batch).unwrap();
    assert_eq!(dev.send_num_free(qp), 1018);
    // fill until only 2 slots remain free
    let filler: Vec<Sqd> = (0..1016u64).map(valid_sqd).collect();
    dev.produce_send(qp, filler).unwrap();
    assert_eq!(dev.send_num_free(qp), 2);
    // one more batch of 5 does not fit: refused, state unchanged
    let refused: Vec<Sqd> = (0..5u64).map(valid_sqd).collect();
    assert_eq!(dev.produce_send(qp, refused), Err(RingError::WouldBlock));
    assert_eq!(dev.send_num_free(qp), 2);
    // what does fit still goes through
    dev.produce_send(qp, vec![valid_sqd(7), valid_sqd(8)]).unwrap();
    assert_eq!(dev.send_num_free(qp), 0);
}

#[test]
fn completion_queue_starts_empty() {
    let tm = TranslationMap::new();
    let mut dev = RdmaDevice::open(tm);
    let cq = dev.create_cq().unwrap();
    assert!(dev.consume_cq(cq).is_none());
    let qp = dev.create_qp().unwrap();
    assert_eq!(qp, 0);
    assert_eq!(cq, 0);
}

#[test]
fn access_flag_bits() {
    assert_eq!(IbvAccess::LocalWrite.bit(), 1);
    assert_eq!(IbvAccess::RemoteWrite.bit(), 2);
    assert_eq!(IbvAccess::RemoteRead.bit(), 4);
    assert_eq!(IbvAccess::RemoteAtomic.bit(), 8);
}

#[test]
fn register_largest_region() {
    // the largest length a region can record: u32::MAX bytes, 2048 chunks
    let v = 0x20_0000_0000u64;
    let p = 0x40_0000_0000u64;
    let tm = mapped(v, p, 2048);
    let mut dev = RdmaDevice::open(tm);
    let mr = dev
        .reg_mr(IbvBuf { addr: v, length: u32::MAX as usize }, IbvAccess::RemoteAtomic.bit())
        .unwrap();
    assert_eq!(mr.length(), u32::MAX);
    assert_eq!(dev.walk(v, mr.lkey()), Some(p));
    assert_eq!(dev.walk(v + 2047 * 2 * MB, mr.lkey()), Some(p + 2047 * 2 * MB));
    assert_eq!(dev.walk(v + u32::MAX as u64 - 1, mr.lkey()), Some(p + 2047 * 2 * MB));
    assert_eq!(dev.walk(v + 2048 * 2 * MB, mr.lkey()), None);
}

#[test]
fn receive_ring_accepts_posted_buffers() {
    let tm = TranslationMap::new();
    let mut dev = RdmaDevice::open(tm);
    let qp = dev.create_qp().unwrap();
    let posts: Vec<rdma_core::device::Rqd> =
        (0..3u64).map(|i| rdma_core::device::Rqd { f: [i, 1, 0, 0] }).collect();
    dev.produce_recv(qp, posts).unwrap();
    // the send ring is untouched by receive posts
    assert_eq!(dev.send_num_free(qp), 1023);
}

#[test]
fn queue_pair_rings_use_distinct_slots() {
    let tm = TranslationMap::new();
    let mut dev = RdmaDevice::open(tm);
    let qp1 = dev.create_qp().unwrap();
    let qp2 = dev.create_qp().unwrap();
    let mut slots: Vec<(usize, usize)> = Vec::new();
    for q in [qp1, qp2] {
        let pair = &dev.qps[q];
        slots.push((pair.send.backing.page, pair.send.backing.slot));
        slots.push((pair.recv.backing.page, pair.recv.backing.slot));
    }
    for (i, a) in slots.iter().enumerate() {
        for b in slots.iter().skip(i + 1) {
            assert_ne!(a, b);
        }
    }
}
