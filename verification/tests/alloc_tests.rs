use corundum::buddy::{get_idx, is_none, off_to_option, option_to_pptr, BuddyAlg};
use corundum::pmem::{PMem, NONE_OFF};
use corundum::open_flags::{
    open_plan, OpenError, OpenPlan, DEFAULT_POOL_SIZE, O_1GB, O_2GB, O_4GB, O_64TB, O_C, O_CF, O_CFNE, O_F, O_READINFO,
};
use corundum::pool::{zone_count, BuddyPool, Zones};
use corundum::record::{clear_record, empty_log, read_record, replay_records, write_record, REC_BYTES};
use corundum::utils::{nearest_pow2, Ring};

#[test]
fn ring_buffer() {
    let mut rng: Ring<i32, 8> = Ring::new();

    for i in 1..8 {
        rng.push(i);
        println!("{:?}", rng.foreach());
    }

    for x in rng.foreach() {
        println!("{}", x);
    }
}

#[test]
fn test_maybe_null_drop() {
    struct D {
        val: i32,
    }
    impl Drop for D {
        fn drop(&mut self) {
            println!("Data {} dropped", self.val);
        }
    }
    struct MyData {
        data: [Option<D>; 8],
    }
    let mut my_data = MyData {
        data: Default::default(),
    };
    my_data.data[1] = Some(D { val: 12 });
}

#[test]
fn ring_keeps_order_and_drains() {
    let mut rng: Ring<u64, 4> = Ring::new();
    assert!(rng.is_empty());
    rng.push(5);
    rng.push(6);
    rng.push_sync(7);
    assert_eq!(rng.len(), 3);
    assert!(rng.contains(6));
    assert!(!rng.contains(9));
    assert!(rng.find(|x| x > 6));
    assert!(!rng.find(|x| x > 7));
    assert_eq!(rng.foreach(), vec![5, 6, 7]);
    assert_eq!(rng.pop(), Some(5));
    assert_eq!(rng.foreach(), vec![6, 7]);
    assert_eq!(rng.drain_atomic(), vec![6, 7]);
    assert!(rng.is_empty());
    assert_eq!(rng.pop(), None);
    rng.push(1);
    rng.clear();
    assert_eq!(rng.len(), 0);
}

#[test]
fn nearest_power_of_two() {
    assert_eq!(nearest_pow2(1), 1);
    assert_eq!(nearest_pow2(5), 8);
    assert_eq!(nearest_pow2(64), 64);
    assert_eq!(nearest_pow2(65), 128);
}

#[test]
fn block_orders() {
    assert_eq!(get_idx(0), usize::MAX);
    assert_eq!(get_idx(1), 3);
    assert_eq!(get_idx(8), 3);
    assert_eq!(get_idx(9), 4);
    assert_eq!(get_idx(4096), 12);
    assert_eq!(get_idx(4097), 13);
}

#[test]
fn null_offsets() {
    assert!(is_none(NONE_OFF));
    assert!(!is_none(0));
    assert_eq!(off_to_option(NONE_OFF), None);
    assert_eq!(off_to_option(40), Some(40));
    assert_eq!(option_to_pptr(None), NONE_OFF);
    assert_eq!(option_to_pptr(Some(40)), 40);
}

fn fresh_zone() -> (PMem, BuddyAlg) {
    let mut mem = PMem::new(4096 + 512);
    let zone = BuddyAlg::init(&mut mem, 4096, 0, 4096);
    (mem, zone)
}

#[test]
fn zone_starts_with_one_block() {
    let (mem, zone) = fresh_zone();
    assert_eq!(zone.size(), 4096);
    assert_eq!(zone.available(), 4096);
    assert_eq!(zone.used(&mem), 0);
    // a zone of a size that is no power of two keeps the largest that fits
    let mut mem2 = PMem::new(5000 + 512);
    let zone2 = BuddyAlg::init(&mut mem2, 5000, 0, 5000);
    assert_eq!(zone2.size(), 4096);
}

#[test]
fn alloc_splits_and_free_merges() {
    let (mut mem, mut zone) = fresh_zone();
    let a = zone.alloc_impl(&mut mem, 100, true);
    assert_eq!(a, 0);
    assert_eq!(zone.available(), 4096 - 128);
    let b = zone.alloc_impl(&mut mem, 100, true);
    assert_eq!(b, 128);
    let c = zone.alloc_impl(&mut mem, 8, true);
    assert_eq!(c, 256);
    assert_eq!(zone.available(), 4096 - 264);
    zone.dealloc_impl(&mut mem, b, 100, true);
    zone.dealloc_impl(&mut mem, a, 100, true);
    zone.dealloc_impl(&mut mem, c, 8, true);
    assert_eq!(zone.available(), 4096);
    // everything merged back: the whole zone is one block again
    assert_eq!(zone.alloc_impl(&mut mem, 4096, true), 0);
    assert_eq!(zone.available(), 0);
}

#[test]
fn alloc_refuses_what_does_not_fit() {
    let (mut mem, mut zone) = fresh_zone();
    assert_eq!(zone.alloc_impl(&mut mem, 3000, true), 0);
    assert_eq!(zone.alloc_impl(&mut mem, 8, true), NONE_OFF);
    assert_eq!(zone.available(), 0);
}

#[test]
fn alloc_without_perform_changes_nothing_yet() {
    let (mut mem, mut zone) = fresh_zone();
    let before = mem.read_bytes(0, 4096 + 512);
    let a = zone.alloc_impl(&mut mem, 64, false);
    assert_eq!(a, 0);
    assert_eq!(mem.read_bytes(0, 4096 + 512), before);
    assert_eq!(zone.available(), 4096);
    zone.perform(&mut mem);
    assert_eq!(zone.available(), 4096 - 64);
}

#[test]
fn is_allocated_walks_the_lists() {
    let (mut mem, mut zone) = fresh_zone();
    assert!(!zone.is_allocated(&mem, 0, 8));
    let a = zone.alloc_impl(&mut mem, 64, true);
    assert!(zone.is_allocated(&mem, a, 64));
    assert!(!zone.is_allocated(&mem, 64, 8));
}

#[test]
fn recover_completes_an_operation() {
    let (mut mem, mut zone) = fresh_zone();
    zone.prepare(&mem);
    let a = zone.alloc_impl(&mut mem, 64, false);
    assert_eq!(a, 0);
    zone.recover(&mut mem);
    assert_eq!(zone.available(), 4096 - 64);
    assert!(zone.is_allocated(&mem, 0, 64));
}

#[test]
fn recover_reclaims_dropped_blocks() {
    let (mut mem, mut zone) = fresh_zone();
    let a = zone.alloc_impl(&mut mem, 64, true);
    zone.prepare(&mem);
    zone.drop_on_failure(&mem, a, 64);
    zone.recover(&mut mem);
    assert_eq!(zone.available(), 4096);
}

#[test]
fn recover_without_operation_drops_queued_changes() {
    let (mut mem, mut zone) = fresh_zone();
    let a = zone.alloc_impl(&mut mem, 64, false);
    assert_eq!(a, 0);
    zone.recover(&mut mem);
    assert_eq!(zone.available(), 4096);
    assert_eq!(zone.alloc_impl(&mut mem, 4096, true), 0);
}

#[test]
fn word_log_is_performed_with_the_zone() {
    let (mut mem, mut zone) = fresh_zone();
    let a = zone.alloc_impl(&mut mem, 64, true);
    zone.prepare(&mem);
    zone.log(&mem, a + 8, 77);
    zone.perform(&mut mem);
    assert_eq!(mem.read_u64(a + 8), 77);
}

#[test]
fn zones_index_by_offset() {
    let zones = Zones::new(2, 0, 100, vec![10u32, 20u32]);
    assert_eq!(zones.count(), 2);
    assert_eq!(zones.quota(), 100);
    assert_eq!(*zones.at(1), 20);
    assert_eq!(*zones.get(3), 20);
    let (z, i) = zones.from_off(150);
    assert_eq!((*z, i), (20, 1));
}

#[test]
fn zone_count_defaults_to_processors() {
    assert_eq!(zone_count(Some(3)), 3);
    assert!(zone_count(None) >= 1);
}

#[test]
fn pool_allocates_from_the_callers_zone() {
    let mut pool = BuddyPool::init(4 * 4096, 4);
    assert_eq!(pool.size(), 4 * 4096);
    assert_eq!(pool.available(), 4 * 4096);
    let (off, len) = pool.allocate(100, 1);
    assert_eq!((off, len), (4096, 100));
    assert_eq!(pool.zone(off), 1);
    assert_eq!(pool.available(), 4 * 4096 - 128);
    assert_eq!(pool.used(), 128);
    pool.dealloc(off, 100);
    assert_eq!(pool.available(), 4 * 4096);
    // a request that no zone can hold fails everywhere
    let (none, l) = pool.allocate(8192, 0);
    assert_eq!((none, l), (NONE_OFF, 0));
}

#[test]
fn pool_tries_the_next_zone() {
    let mut pool = BuddyPool::init(2 * 4096, 2);
    let (a, _) = pool.allocate(4096, 1);
    assert_eq!(a, 4096);
    let (b, _) = pool.allocate(64, 1);
    assert_eq!(b, 0);
    assert!(pool.allocated(b, 64));
    assert!(!pool.allocated(1 << 40, 8));
}

#[test]
fn pool_bytes_round_trip() {
    let mut pool = BuddyPool::init(4096, 1);
    let (a, _) = pool.allocate(64, 0);
    pool.write_bytes(a, &[1, 2, 3]);
    assert_eq!(pool.read_bytes(a, 3), vec![1, 2, 3]);
    pool.write_u64(a + 8, 99);
    assert_eq!(pool.read_u64(a + 8), 99);
    pool.copy(a, a + 16, 3);
    assert_eq!(pool.read_bytes(a + 16, 3), vec![1, 2, 3]);
}

#[test]
fn free_lists_verify_after_allocations() {
    let (mut mem, mut zone) = fresh_zone();
    assert!(zone.verify(&mem, true));
    let a = zone.alloc_impl(&mut mem, 100, true);
    let b = zone.alloc_impl(&mut mem, 8, true);
    assert!(zone.verify(&mem, true));
    assert!(zone.verify(&mem, false));
    zone.dealloc_impl(&mut mem, a, 100, true);
    assert!(zone.verify(&mem, true));
    zone.dealloc_impl(&mut mem, b, 8, true);
    assert!(zone.verify(&mem, true));
    let mut p = BuddyPool::init(1 << 16, 2);
    let (off, _) = p.allocate(64, 0);
    assert_ne!(off, NONE_OFF);
    assert!(p.verify(true));
}

#[test]
fn free_list_check_rejects_broken_lists() {
    // the zone's only free block, of order 12, starts at offset 0 and its
    // head word sits at 4096 + 8 * 12
    let (mut mem, zone) = fresh_zone();
    let head = 4096 + 8 * 12;
    assert_eq!(mem.read_u64(head), 0);
    // a block that links to itself is caught only by the cycle check
    mem.write_u64(0, 0);
    assert!(!zone.verify(&mem, true));
    // a list that leads out of the image fails either way
    let (mut mem, zone) = fresh_zone();
    mem.write_u64(head, 1_000_000);
    assert!(!zone.verify(&mem, true));
    assert!(!zone.verify(&mem, false));
    // a block whose next word runs past the end of the image fails too
    let (mut mem, zone) = fresh_zone();
    mem.write_u64(head, 4096 + 512 - 4);
    assert!(!zone.verify(&mem, false));
    // two blocks that link to each other form a longer cycle
    let (mut mem, zone) = fresh_zone();
    mem.write_u64(0, 64);
    mem.write_u64(64, 0);
    assert!(!zone.verify(&mem, true));
    // a hand-built list of two blocks that ends in the null offset passes
    let (mut mem, zone) = fresh_zone();
    mem.write_u64(0, 64);
    mem.write_u64(64, NONE_OFF);
    assert!(zone.verify(&mem, true));
    assert!(zone.verify(&mem, false));
}

#[test]
fn recovery_state_lists_the_queued_work() {
    let (mut mem, mut zone) = fresh_zone();
    let clean = zone.recovery_state(&mem);
    assert!(!clean.crashed);
    assert!(clean.aux.is_empty() && clean.log64.is_empty() && clean.drops.is_empty());
    let a = zone.alloc_impl(&mut mem, 64, true);
    zone.prepare(&mem);
    zone.log(&mem, a + 8, 77);
    zone.drop_on_failure(&mem, a, 64);
    let st = zone.recovery_state(&mem);
    assert!(st.crashed);
    assert_eq!(st.log64.len(), 1);
    assert_eq!(st.log64[0].0, a + 8);
    assert_eq!(st.log64[0].2, 77);
    assert_eq!(st.log64[0].1, mem.read_u64(a + 8));
    assert_eq!(st.drops, vec![(a, 64)]);
    let mut p = BuddyPool::init(1 << 16, 2);
    assert!(!p.zone_recovery_state(1).crashed);
    let _ = p.allocate(64, 1);
    assert!(p.zone_recovery_state(1).aux.is_empty());
}

#[test]
fn free_lists_read_back_in_order() {
    let (mut mem, mut zone) = fresh_zone();
    assert_eq!(zone.last_idx(), 12);
    assert_eq!(zone.free_list(&mem, 12), vec![0]);
    let a = zone.alloc_impl(&mut mem, 100, true);
    assert_eq!(a, 0);
    assert_eq!(zone.free_list(&mem, 12), Vec::<u64>::new());
    assert_eq!(zone.free_list(&mem, 7), vec![128]);
    assert_eq!(zone.free_list(&mem, 8), vec![256]);
    assert_eq!(zone.free_list(&mem, 11), vec![2048]);
    let p = BuddyPool::init(1 << 16, 2);
    let last = p.zone_last_idx(0);
    assert_eq!(p.zone_free_list(0, last).len(), 1);
}

#[test]
fn open_flags_plan_the_pool_file() {
    let cf = open_plan(O_CF, false).unwrap();
    assert_eq!(cf, OpenPlan { size: DEFAULT_POOL_SIZE, create: true, format: true });
    assert_eq!(DEFAULT_POOL_SIZE, 8 * 1024 * 1024);
    assert_eq!(open_plan(O_C | O_1GB | O_2GB, false), Err(OpenError::MultipleSizes));
    assert_eq!(open_plan(O_1GB, false), Err(OpenError::SizeWithoutCreate));
    assert_eq!(
        open_plan(O_CFNE | O_4GB, true),
        Ok(OpenPlan { size: 4 << 30, create: false, format: false })
    );
    assert_eq!(
        open_plan(O_CFNE | O_4GB, false),
        Ok(OpenPlan { size: 4 << 30, create: true, format: true })
    );
    assert_eq!(open_plan(O_F, false), Ok(OpenPlan { size: DEFAULT_POOL_SIZE, create: false, format: true }));
    assert_eq!(open_plan(O_F, true), Ok(OpenPlan { size: DEFAULT_POOL_SIZE, create: false, format: false }));
    assert_eq!(open_plan(O_C | O_64TB, true).unwrap().size, 64u64 << 40);
    assert_eq!(open_plan(O_READINFO, true), Err(OpenError::MultipleSizes));
}

#[test]
fn pool_opens_from_its_image() {
    let mut p = BuddyPool::init(1 << 16, 2);
    let (a, _) = p.allocate(64, 0);
    let (b, _) = p.allocate(200, 1);
    assert_ne!(a, NONE_OFF);
    assert_ne!(b, NONE_OFF);
    p.write_u64(a, 77);
    let bytes = p.read_bytes(0, p.image_len() as u64);
    let q = BuddyPool::open(bytes, p.log_bytes(), 1 << 16, 2).unwrap();
    assert_eq!(q.available(), p.available());
    assert_eq!(q.read_u64(a), 77);
    for z in 0..2 {
        let last = q.zone_last_idx(z);
        for k in 3..last + 1 {
            assert_eq!(q.zone_free_list(z, k), p.zone_free_list(z, k));
        }
    }
    assert!(q.verify(true));
}

#[test]
fn pool_open_refuses_broken_free_lists() {
    let p = BuddyPool::init(1 << 16, 2);
    let mut bytes = p.read_bytes(0, p.image_len() as u64);
    // the head word of list 3 of zone 0 points into the middle of nowhere
    let head = (1usize << 16) + 8 * 3;
    bytes[head..head + 8].copy_from_slice(&12345u64.to_le_bytes());
    assert!(BuddyPool::open(bytes, p.log_bytes(), 1 << 16, 2).is_none());
}

/// The word stores that turn image `before` into image `after`, at 8-aligned
/// offsets, in increasing order of offset.
fn word_stores(before: &[u8], after: &[u8]) -> Vec<(u64, u64)> {
    let mut ws = vec![];
    let mut off = 0;
    while off + 8 <= before.len() {
        if before[off..off + 8] != after[off..off + 8] {
            let mut w = [0u8; 8];
            w.copy_from_slice(&after[off..off + 8]);
            ws.push((off as u64, u64::from_le_bytes(w)));
        }
        off += 8;
    }
    ws
}

/// A log image of `zones` records whose record `z` is complete and holds `ws`.
fn log_with_record(zones: usize, z: usize, ws: &[(u64, u64)]) -> Vec<u8> {
    let mut log = vec![0u8; REC_BYTES as usize * zones];
    let at = REC_BYTES as usize * z;
    log[at..at + 8].copy_from_slice(&1u64.to_le_bytes());
    log[at + 8..at + 16].copy_from_slice(&(ws.len() as u64).to_le_bytes());
    for (i, (a, v)) in ws.iter().enumerate() {
        let e = at + 16 + 16 * i;
        log[e..e + 8].copy_from_slice(&a.to_le_bytes());
        log[e + 8..e + 16].copy_from_slice(&v.to_le_bytes());
    }
    log
}

#[test]
fn pool_open_completes_an_interrupted_operation() {
    let mut p = BuddyPool::init(1 << 16, 2);
    let before = p.read_bytes(0, p.image_len() as u64);
    let (a, _) = p.allocate(64, 1);
    assert_ne!(a, NONE_OFF);
    let after = p.read_bytes(0, p.image_len() as u64);
    let ws = word_stores(&before, &after);
    assert!(!ws.is_empty());
    let log = log_with_record(2, 1, &ws);
    for k in 0..ws.len() + 1 {
        // the crash left the first k stores in the image
        let mut crashed = before.clone();
        for (off, v) in &ws[..k] {
            let o = *off as usize;
            crashed[o..o + 8].copy_from_slice(&v.to_le_bytes());
        }
        let q = BuddyPool::open(crashed, log.clone(), 1 << 16, 2).unwrap();
        assert_eq!(q.read_bytes(0, q.image_len() as u64), after);
        assert_eq!(q.available(), p.available());
        let l = q.log_bytes();
        for z in 0..2 {
            let at = REC_BYTES as usize * z;
            assert_eq!(l[at..at + 8], [0u8; 8]);
        }
    }
    // with the record not yet marked complete the image is taken as it is
    let mut unmarked = log.clone();
    let at = REC_BYTES as usize;
    unmarked[at..at + 8].copy_from_slice(&0u64.to_le_bytes());
    let q = BuddyPool::open(before.clone(), unmarked, 1 << 16, 2).unwrap();
    assert_eq!(q.read_bytes(0, q.image_len() as u64), before);
}

#[test]
fn redo_records_round_trip_and_replay() {
    let mut log = empty_log(2);
    assert_eq!(read_record(&log, 0, 64), None);
    let ws = vec![(0u64, 5u64), (8, 6), (0, 7)];
    write_record(&mut log, REC_BYTES, &ws);
    assert_eq!(read_record(&log, REC_BYTES, 64), Some(ws.clone()));
    // a store that does not fit in the image makes the record unusable
    assert_eq!(read_record(&log, REC_BYTES, 12), None);
    assert_eq!(read_record(&log, 0, 64), None);
    let mut mem = PMem::new(64);
    replay_records(&mut mem, &mut log, 2);
    assert_eq!(mem.read_u64(0), 7);
    assert_eq!(mem.read_u64(8), 6);
    assert_eq!(mem.read_u64(16), 0);
    assert_eq!(read_record(&log, REC_BYTES, 64), None);
    write_record(&mut log, 0, &ws);
    clear_record(&mut log, 0);
    assert_eq!(read_record(&log, 0, 64), None);
}
