use corundum::boxed::Pbox;
use corundum::cell::{LazyCell, LogCell, PRefCell, Ref, RefMut, RootCell};
use corundum::gen::{ByteArray, Gen};
use corundum::marker::{AssertTxInSafe, Heap, MemPool, PFrom, PmemUsage, RootObj};
use corundum::parc::{self, Parc};
use corundum::pmem::NONE_OFF;
use corundum::pool::BuddyPool;
use corundum::prc::{self, ws, Prc};
use corundum::ptr::{LogNonNull, NonNull};
use corundum::stm::{Journal, Log, LogEnum, Notifier, TxOutcome};
use corundum::vweak::VWeakList;

fn pool() -> BuddyPool {
    BuddyPool::init(1 << 16, 2)
}

fn begin(cpu: usize) -> Journal {
    let mut j = Journal::new(1, cpu);
    j.enter();
    j
}

#[test]
fn test_transaction() {
    let mut p = pool();
    let mut j = begin(0);
    let mut cell = PRefCell::new(&mut p, &mut j, 1).unwrap();
    let data = cell.borrow_mut();
    data.set(&mut p, &mut j, 2);
    println!("data = {}", data.get(&p));
    assert_eq!(data.get(&p), 2);
    data.drop(&mut cell);
    assert_eq!(j.finish(&mut p, true), TxOutcome::Committed);
    assert_eq!(cell.read(&p), 2);
}

#[test]
fn parc_heap() {
    let mut p = pool();
    let mut j = begin(0);
    let data = Parc::new(10, &mut p, &mut j).unwrap();
    let _weak_five = Parc::downgrade(&data, &mut p, &mut j);
    assert_eq!(j.finish(&mut p, true), TxOutcome::Committed);
}

#[test]
fn multiple_transactions() {
    let mut p1 = pool();
    let mut j1 = begin(0);
    let b1 = LogCell::new(&mut p1, &mut j1, 1).unwrap();
    let inner = {
        let mut p2 = pool();
        let mut j2 = begin(0);
        let b2 = LogCell::new(&mut p2, &mut j2, 1).unwrap();
        let v = b2.get(&p2);
        assert_eq!(j2.finish(&mut p2, true), TxOutcome::Committed);
        v
    };
    b1.set(&mut p1, &mut j1, inner);
    assert_eq!(j1.finish(&mut p1, true), TxOutcome::Committed);
    assert_eq!(b1.get(&p1), 1);
}

#[test]
fn test_refcell_ownership() {
    let mut p = pool();
    let mut j = begin(0);
    let mut root = PRefCell::new(&mut p, &mut j, 0).unwrap();
    assert_eq!(j.finish(&mut p, true), TxOutcome::Committed);

    j.enter();
    let a = root.borrow_mut();
    a.set(&mut p, &mut j, 10);
    a.drop(&mut root);
    let c = root.borrow_mut();
    c.set(&mut p, &mut j, 20);
    let d = RefMut::own(c);
    d.set(&mut p, &mut j, 25);
    let dv = d.get(&p);
    let mut new = PRefCell::new(&mut p, &mut j, dv).unwrap();
    let e = new.borrow_mut();
    e.set(&mut p, &mut j, 30);
    d.drop(&mut root);
    e.drop(&mut new);
    assert_eq!(j.finish(&mut p, true), TxOutcome::Committed);

    let r = root.borrow();
    assert_eq!(25, r.get(&p));
    r.drop(&mut root);
    assert_eq!(30, new.read(&p));
}

#[test]
fn cell_set_is_undone_by_rollback() {
    let mut p = pool();
    let mut j = begin(0);
    let c = LogCell::new(&mut p, &mut j, 5).unwrap();
    assert_eq!(j.finish(&mut p, true), TxOutcome::Committed);
    assert_eq!(c.get(&p), 5);

    j.enter();
    c.set(&mut p, &mut j, 10);
    c.set(&mut p, &mut j, 11);
    assert_eq!(c.get(&p), 11);
    assert_eq!(j.len(), 1);
    assert_eq!(j.finish(&mut p, false), TxOutcome::RolledBack);
    assert_eq!(c.get(&p), 5);

    j.enter();
    c.set(&mut p, &mut j, 12);
    assert_eq!(j.finish(&mut p, true), TxOutcome::Committed);
    assert_eq!(c.get(&p), 12);
}

#[test]
fn cell_arithmetic_and_update() {
    let mut p = pool();
    let mut j = begin(0);
    let c = LogCell::new(&mut p, &mut j, 5).unwrap();
    assert_eq!(c.replace(&mut p, &mut j, 10), 5);
    c.add(&mut p, &mut j, 5);
    assert_eq!(c.get(&p), 15);
    c.sub(&mut p, &mut j, 3);
    assert_eq!(c.get(&p), 12);
    c.mul(&mut p, &mut j, 2);
    assert_eq!(c.get(&p), 24);
    c.div(&mut p, &mut j, 5);
    assert_eq!(c.get(&p), 4);
    c.rem(&mut p, &mut j, 3);
    assert_eq!(c.get(&p), 1);
    let new = c.update(&mut p, &mut j, |x| x + 1);
    assert_eq!(new, 2);
    assert_eq!(c.get(&p), 2);
    c.update_inplace(&p, |x| assert_eq!(x, 2));
    assert_eq!(c.take(&mut p, &mut j), 2);
    assert_eq!(c.get(&p), 0);
    assert_eq!(c.into_inner(&p), 0);
}

#[test]
fn cell_swap() {
    let mut p = pool();
    let mut j = begin(0);
    let c1 = LogCell::new(&mut p, &mut j, 5).unwrap();
    let c2 = LogCell::new(&mut p, &mut j, 10).unwrap();
    c1.swap(&c2, &mut p, &mut j);
    assert_eq!(10, c1.get(&p));
    assert_eq!(5, c2.get(&p));
    c1.swap(&c1, &mut p, &mut j);
    assert_eq!(10, c1.get(&p));
}

#[test]
fn refcell_replace_swap_take() {
    let mut p = pool();
    let mut j = begin(0);
    let mut cell = PRefCell::new(&mut p, &mut j, 5).unwrap();
    assert_eq!(cell.replace(&mut p, &mut j, 6), 5);
    let b = cell.borrow();
    assert_eq!(b.get(&p), 6);
    b.drop(&mut cell);
    let old_value = cell.replace_with(&mut p, &mut j, |old| old + 1);
    assert_eq!(old_value, 6);
    assert_eq!(cell.read(&p), 7);
    let c2 = PRefCell::new(&mut p, &mut j, 10).unwrap();
    cell.swap(&c2, &mut p, &mut j);
    assert_eq!(10, cell.take(&mut p, &mut j));
    assert_eq!(7, c2.take(&mut p, &mut j));
    assert_eq!(cell.read(&p), 0);
    let r1 = cell.borrow();
    let r2 = cell.borrow();
    r1.drop(&mut cell);
    // r2 is still alive: the cell counts one shared view
    let r = Ref::own(r2);
    assert_eq!(r.get(&p), 0);
    r.drop(&mut cell);
    assert_eq!(cell.replace(&mut p, &mut j, 1), 0);
}

#[test]
fn pbox_holds_its_word() {
    let mut p = pool();
    let mut j = begin(0);
    let five = Pbox::new(5, &mut p, &mut j).unwrap();
    assert_eq!(five.get(&p), 5);
    let off = five.off();
    assert!(matches!(j.record_at(j.len() - 1).inner(), LogEnum::DropOnFailure(o, 8) if o == off));
    let pinned = Pbox::pin(6, &mut p, &mut j).unwrap();
    assert_eq!(pinned.get(&p), 6);
    assert_ne!(pinned.off(), off);
    assert_eq!(Pbox::into_raw(five), off);
}

#[test]
fn failed_transaction_frees_new_objects() {
    let mut p = pool();
    let before = p.available();
    let mut j = begin(0);
    let b = Pbox::new(5, &mut p, &mut j).unwrap();
    assert!(p.available() < before);
    assert!(p.allocated(b.off(), 8));
    j.recover(&mut p, false);
    assert_eq!(p.available(), before);
}

#[test]
fn prc_counts() {
    let mut p = pool();
    let mut j = begin(0);
    let five = Prc::new(5, &mut p, &mut j).unwrap();
    assert_eq!(five.get(&p), 5);
    let s = five.pclone(&mut p, &mut j);
    assert_eq!(2, Prc::strong_count(&five, &p));
    assert_eq!(0, Prc::weak_count(&five, &p));
    assert!(Prc::ptr_eq(&five, &s));
    let w = Prc::downgrade(&five, &mut p, &mut j);
    assert_eq!(2, Prc::strong_count(&five, &p));
    assert_eq!(1, Prc::weak_count(&five, &p));
    let mut vl = VWeakList::new();
    let _v = Prc::demote(&five, &mut vl, 1);
    assert_eq!(1, Prc::weak_count(&five, &p));
    let ws1 = w.upgrade(&mut p, &mut j).unwrap();
    assert_eq!(3, Prc::strong_count(&five, &p));
    assert!(Prc::ptr_eq(&ws1, &five));
    assert_eq!(w.strong_count(&p), 3);
    assert_eq!(w.weak_count(&p), Some(1));
    assert_eq!(ws(&five, &p), (3, 2));
    let other = Prc::new(5, &mut p, &mut j).unwrap();
    assert!(!Prc::ptr_eq(&five, &other));
    let moved = Prc::from(other);
    assert_eq!(moved.get(&p), 5);
    let raw = w.into_raw();
    assert_ne!(raw, NONE_OFF);
}

#[test]
fn prc_counts_roll_back() {
    let mut p = pool();
    let mut j = begin(0);
    let five = Prc::new(5, &mut p, &mut j).unwrap();
    assert_eq!(j.finish(&mut p, true), TxOutcome::Committed);
    j.enter();
    let _s = five.pclone(&mut p, &mut j);
    let _w = Prc::downgrade(&five, &mut p, &mut j);
    assert_eq!(ws(&five, &p), (2, 2));
    assert_eq!(j.finish(&mut p, false), TxOutcome::RolledBack);
    assert_eq!(ws(&five, &p), (1, 1));
}

#[test]
fn dangling_weak_pointers() {
    let mut p = pool();
    let mut j = begin(0);
    let w = prc::Weak::new();
    assert!(w.upgrade(&mut p, &mut j).is_none());
    assert_eq!(w.strong_count(&p), 0);
    assert_eq!(w.weak_count(&p), None);
    assert!(w.ptr_eq(&prc::Weak::new()));
    assert_eq!(w.into_raw(), NONE_OFF);
    let _ = prc::VWeak::null();
    let pw = parc::Weak::new();
    assert!(pw.upgrade(&mut p, &mut j).is_none());
    assert_eq!(pw.strong_count(&p), 0);
    assert_eq!(pw.weak_count(&p), 0);
    assert!(pw.ptr_eq(&parc::Weak::new()));
    assert_eq!(pw.into_raw(), NONE_OFF);
    let _ = parc::VWeak::null();
}

#[test]
fn parc_counts_and_recount_records() {
    let mut p = pool();
    let mut j = begin(0);
    let a = Parc::new(10, &mut p, &mut j).unwrap();
    assert_eq!(a.get(&p), 10);
    let b = a.pclone(&mut p, &mut j);
    assert!(Parc::ptr_eq(&a, &b));
    assert_eq!(Parc::strong_count(&a, &p), 2);
    let w = Parc::downgrade(&a, &mut p, &mut j);
    assert_eq!(Parc::weak_count(&a, &p), 1);
    assert!(matches!(j.record_at(j.len() - 1).inner(), LogEnum::RecountOnFailure(_, false)));
    let u = w.upgrade(&mut p, &mut j).unwrap();
    assert!(Parc::ptr_eq(&u, &a));
    assert_eq!(w.strong_count(&p), 3);
    assert_eq!(w.weak_count(&p), 1);
    assert_eq!(j.finish(&mut p, true), TxOutcome::Committed);
    let mut vl = VWeakList::new();
    let _v = Parc::demote(&a, &j, &mut vl, 1);
    assert_ne!(w.into_raw(), NONE_OFF);
}

#[test]
fn lazy_cell_runs_its_initializer_once() {
    let mut l = LazyCell::new(|| 92u64);
    assert_eq!(l.force(), 92);
    assert_eq!(l.force(), 92);
}

#[test]
fn root_cell_holds_root() {
    let v = 7u64;
    let r = RootCell::new(&v, std::sync::Arc::new(3u8));
    let _ = r;
}

#[test]
fn pointers() {
    assert!(NonNull::new(NONE_OFF).is_none());
    let n = NonNull::new(16).unwrap();
    let m = NonNull::new_unchecked(16);
    let mut p = pool();
    let mut j = begin(0);
    let b = Pbox::new(77, &mut p, &mut j).unwrap();
    let q = NonNull::new(b.off()).unwrap();
    assert_eq!(q.get(&p), 77);
    let _ = (n, m);
    let flag = Pbox::new(0, &mut p, &mut j).unwrap();
    let before = j.len();
    let l = LogNonNull::new_unchecked(b.off(), flag.off());
    l.set(&mut p, &mut j, 78);
    assert_eq!(b.get(&p), 78);
    assert_eq!(j.len(), before + 1);
}

#[test]
fn byte_arrays() {
    let g = Gen::null();
    assert_eq!(g.ptr(), NONE_OFF);
    assert_eq!(g.len(), 0);
    let mut a = ByteArray::from_gen(Gen::from_raw_parts(64, 8));
    let mut b = ByteArray::null();
    assert_eq!(a.off(), 64);
    assert_eq!(a.len(), 8);
    assert_eq!(a.get_ptr(), 64);
    assert_eq!(a.get_ptr_mut(), 64);
    a.swap(&mut b);
    assert_eq!(a.off(), NONE_OFF);
    assert_eq!(b.len(), 8);
    assert_eq!(b.get_gen().ptr(), 64);
}

#[test]
fn markers_and_roots() {
    let a = AssertTxInSafe(5u64);
    assert_eq!(*a.get(), 5);
    assert_eq!(<u64 as PmemUsage>::size_of(), 0);
    assert_eq!(<BuddyPool as MemPool>::name(), "buddy");
    assert_eq!(<Heap as MemPool>::name(), "heap");
    let j = Journal::new(0, 0);
    assert_eq!(<u64 as RootObj>::init(&j), 0);
    assert_eq!(<u64 as PFrom<u64>>::pfrom(3, &j), 3);
}

#[test]
fn pbox_initialize_publishes_once() {
    let mut p = pool();
    let mut j = begin(0);
    let root = Pbox::new(NONE_OFF, &mut p, &mut j).unwrap();
    assert_eq!(j.finish(&mut p, true), TxOutcome::Committed);
    assert!(Pbox::initialize(root.off(), 25, &mut p, 0).is_ok());
    let b = root.get(&p);
    assert_ne!(b, NONE_OFF);
    assert_eq!(NonNull::new(b).unwrap().get(&p), 25);
    assert!(Pbox::initialize(root.off(), 26, &mut p, 0).is_err());
    assert_eq!(NonNull::new(root.get(&p)).unwrap().get(&p), 25);
    let outside = p.image_len() as u64;
    assert!(Pbox::initialize(outside, 1, &mut p, 0).is_err());
}

#[test]
fn prc_initialize_publishes_a_counted_box() {
    let mut p = pool();
    let mut j = begin(0);
    let root = Pbox::new(NONE_OFF, &mut p, &mut j).unwrap();
    assert_eq!(j.finish(&mut p, true), TxOutcome::Committed);
    let used = p.used();
    assert!(Prc::initialize(root.off(), 25, &mut p, 1).is_ok());
    assert!(p.used() > used);
    let b = root.get(&p);
    assert_eq!(NonNull::new(b).unwrap().get(&p), 1);
    assert_eq!(NonNull::new(b + 8).unwrap().get(&p), 1);
    assert_eq!(NonNull::new(b + 24).unwrap().get(&p), 25);
    assert!(Prc::initialize(root.off(), 7, &mut p, 1).is_err());
}

#[test]
fn prc_drop_of_last_pointer_frees_on_commit() {
    let mut p = pool();
    let mut j = begin(0);
    let mut vl = VWeakList::new();
    let five = Prc::new(5, &mut p, &mut j).unwrap();
    assert_eq!(j.finish(&mut p, true), TxOutcome::Committed);
    let before = p.available();
    j.enter();
    let s = five.pclone(&mut p, &mut j);
    s.drop(&mut p, &mut j, &mut vl);
    assert_eq!(ws(&five, &p), (1, 1));
    five.drop(&mut p, &mut j, &mut vl);
    assert!(matches!(j.record_at(j.len() - 1).inner(), LogEnum::DropOnCommit(_, 32)));
    assert_eq!(j.finish(&mut p, true), TxOutcome::Committed);
    assert_eq!(p.available(), before + 32);
}

#[test]
fn prc_drop_is_undone_by_rollback() {
    let mut p = pool();
    let mut j = begin(0);
    let mut vl = VWeakList::new();
    let five = Prc::new(5, &mut p, &mut j).unwrap();
    let keep = five.pclone(&mut p, &mut j);
    assert_eq!(j.finish(&mut p, true), TxOutcome::Committed);
    let before = p.available();
    j.enter();
    five.drop(&mut p, &mut j, &mut vl);
    assert_eq!(ws(&keep, &p), (1, 1));
    assert_eq!(j.finish(&mut p, false), TxOutcome::RolledBack);
    assert_eq!(ws(&keep, &p), (2, 1));
    assert_eq!(p.available(), before);
}

#[test]
fn prc_weak_drop_counts_down() {
    let mut p = pool();
    let mut j = begin(0);
    let mut vl = VWeakList::new();
    let five = Prc::new(5, &mut p, &mut j).unwrap();
    let w = Prc::downgrade(&five, &mut p, &mut j);
    assert_eq!(Prc::weak_count(&five, &p), 1);
    w.drop(&mut p, &mut j, &mut vl);
    assert_eq!(Prc::weak_count(&five, &p), 0);
    prc::Weak::new().drop(&mut p, &mut j, &mut vl);
    assert_eq!(ws(&five, &p), (1, 1));
    assert_eq!(j.finish(&mut p, true), TxOutcome::Committed);
}

#[test]
fn parc_drop_of_last_pointer_frees_on_commit() {
    let mut p = pool();
    let mut j = begin(0);
    let mut vl = VWeakList::new();
    let a = Parc::new(10, &mut p, &mut j).unwrap();
    assert_eq!(j.finish(&mut p, true), TxOutcome::Committed);
    let before = p.available();
    j.enter();
    let b = a.pclone(&mut p, &mut j);
    b.drop(&mut p, &mut j, &mut vl);
    assert_eq!(Parc::strong_count(&a, &p), 1);
    assert!(matches!(j.record_at(j.len() - 1).inner(), LogEnum::RecountOnFailure(_, true)));
    a.drop(&mut p, &mut j, &mut vl);
    assert!(matches!(j.record_at(j.len() - 1).inner(), LogEnum::DropOnCommit(_, 24)));
    assert_eq!(j.finish(&mut p, true), TxOutcome::Committed);
    assert!(p.available() > before);
}

#[test]
fn parc_drop_is_undone_by_recovery() {
    let mut p = pool();
    let mut j = begin(0);
    let mut vl = VWeakList::new();
    let a = Parc::new(10, &mut p, &mut j).unwrap();
    let keep = a.pclone(&mut p, &mut j);
    let w = Parc::downgrade(&keep, &mut p, &mut j);
    assert_eq!(j.finish(&mut p, true), TxOutcome::Committed);
    j.enter();
    a.drop(&mut p, &mut j, &mut vl);
    w.drop(&mut p, &mut j);
    assert_eq!(Parc::strong_count(&keep, &p), 1);
    assert_eq!(Parc::weak_count(&keep, &p), 0);
    parc::Weak::new().drop(&mut p, &mut j);
    j.recover(&mut p, false);
    assert_eq!(Parc::strong_count(&keep, &p), 2);
    assert_eq!(Parc::weak_count(&keep, &p), 1);
}

#[test]
fn parc_drop_stays_after_rollback_in_process() {
    let mut p = pool();
    let mut j = begin(0);
    let mut vl = VWeakList::new();
    let a = Parc::new(10, &mut p, &mut j).unwrap();
    let keep = a.pclone(&mut p, &mut j);
    assert_eq!(j.finish(&mut p, true), TxOutcome::Committed);
    j.enter();
    a.drop(&mut p, &mut j, &mut vl);
    assert_eq!(j.finish(&mut p, false), TxOutcome::RolledBack);
    assert_eq!(Parc::strong_count(&keep, &p), 1);
}

#[test]
fn weak_pclone_counts_up() {
    let mut p = pool();
    let mut j = begin(0);
    let five = Prc::new(5, &mut p, &mut j).unwrap();
    let w = Prc::downgrade(&five, &mut p, &mut j);
    let w2 = w.pclone(&mut p, &mut j);
    assert!(w.ptr_eq(&w2));
    assert_eq!(Prc::weak_count(&five, &p), 2);
    let d = prc::Weak::new().pclone(&mut p, &mut j);
    assert_eq!(d.into_raw(), NONE_OFF);
    let a = Parc::new(10, &mut p, &mut j).unwrap();
    let pw = Parc::downgrade(&a, &mut p, &mut j);
    let pw2 = pw.pclone(&mut p, &mut j);
    assert!(pw.ptr_eq(&pw2));
    assert_eq!(Parc::weak_count(&a, &p), 2);
    assert!(matches!(j.record_at(j.len() - 1).inner(), LogEnum::RecountOnFailure(_, false)));
    assert_eq!(j.finish(&mut p, true), TxOutcome::Committed);
}

#[test]
fn log_notify_sets_the_flag_of_data_logs_only() {
    let mut p = pool();
    let mut j = begin(0);
    let data = Pbox::new(1, &mut p, &mut j).unwrap();
    let flag = Pbox::new(0, &mut p, &mut j).unwrap();
    let l = Log::new(LogEnum::DataLog(data.off(), 0, 8), Notifier::NonAtomic(flag.off()));
    l.notify(&mut p, 1);
    assert_eq!(p.read_byte(flag.off()), 1);
    let other = Log::new(LogEnum::DropOnCommit(data.off(), 8), Notifier::NonAtomic(flag.off()));
    other.notify(&mut p, 0);
    assert_eq!(p.read_byte(flag.off()), 1);
    l.notify(&mut p, 0);
    assert_eq!(p.read_byte(flag.off()), 0);
}

#[test]
fn journal_ignore_and_is_running() {
    let mut p = pool();
    let mut j = Journal::new(1, 0);
    assert!(!j.is_running());
    j.enter();
    assert!(j.is_running());
    let _b = Pbox::new(3, &mut p, &mut j).unwrap();
    assert!(j.len() > 0);
    let used = p.used();
    j.ignore();
    assert_eq!(j.len(), 0);
    assert_eq!(j.finish(&mut p, false), TxOutcome::RolledBack);
    assert_eq!(p.used(), used);
    assert!(!j.is_running());
}

#[test]
fn cell_set_is_undone_by_crash_recovery() {
    let mut p = pool();
    let mut j = begin(0);
    let c = LogCell::new(&mut p, &mut j, 5).unwrap();
    assert_eq!(j.finish(&mut p, true), TxOutcome::Committed);

    j.enter();
    c.set(&mut p, &mut j, 10);
    assert_eq!(c.get(&p), 10);
    // the transaction never commits: recovery rolls the cell back
    j.recover(&mut p, false);
    assert_eq!(c.get(&p), 5);
    let mut j2 = begin(0);
    c.set(&mut p, &mut j2, 6);
    assert_eq!(j2.finish(&mut p, true), TxOutcome::Committed);
    assert_eq!(c.get(&p), 6);
}

#[test]
fn vweak_promotes_while_its_box_lives() {
    let mut p = pool();
    let mut j = begin(0);
    let mut vl = VWeakList::new();
    let five = Prc::new(5, &mut p, &mut j).unwrap();
    let v = Prc::demote(&five, &mut vl, 1);
    assert!(vl.is_valid(0));
    let s = v.promote(&mut p, &mut j, &vl, 1).unwrap();
    assert!(Prc::ptr_eq(&s, &five));
    assert_eq!(Prc::strong_count(&five, &p), 2);
    // another generation of the pool: the pointer is stale
    assert!(v.promote(&mut p, &mut j, &vl, 2).is_none());
    let v2 = v.clone(&mut vl, 1);
    assert_eq!(vl.len(), 2);
    v2.drop(&mut vl, 1);
    assert!(!vl.is_valid(1));
    s.drop(&mut p, &mut j, &mut vl);
    assert!(vl.is_valid(0));
    five.drop(&mut p, &mut j, &mut vl);
    // the last weak reference went: the volatile pointer no longer reaches the box
    assert!(!vl.is_valid(0));
    assert!(v.promote(&mut p, &mut j, &vl, 1).is_none());
    assert!(prc::VWeak::null().promote(&mut p, &mut j, &vl, 1).is_none());
    assert_eq!(j.finish(&mut p, true), TxOutcome::Committed);
}

#[test]
fn parc_vweak_promotes_while_its_box_lives() {
    let mut p = pool();
    let mut j = begin(0);
    let mut vl = VWeakList::new();
    let a = Parc::new(10, &mut p, &mut j).unwrap();
    assert_eq!(j.finish(&mut p, true), TxOutcome::Committed);
    let v = Parc::demote(&a, &j, &mut vl, 7);
    j.enter();
    let s = v.promote(&mut p, &mut j, &vl, 7).unwrap();
    assert!(Parc::ptr_eq(&s, &a));
    assert_eq!(Parc::strong_count(&a, &p), 2);
    assert!(matches!(j.record_at(j.len() - 1).inner(), LogEnum::RecountOnFailure(_, false)));
    let v2 = v.clone(&mut vl, 7);
    v2.drop(&mut vl, 7);
    s.drop(&mut p, &mut j, &mut vl);
    a.drop(&mut p, &mut j, &mut vl);
    assert!(!vl.is_valid(0));
    assert!(v.promote(&mut p, &mut j, &vl, 7).is_none());
    assert!(parc::VWeak::null().promote(&mut p, &mut j, &vl, 7).is_none());
}

#[test]
fn prc_test() {
    let mut p = pool();
    let mut j = begin(0);
    // a chain of shared boxes 10 -> 20 -> 30 -> 40 -> 50, built and summed
    // inside one transaction
    let shared_root = Prc::new(10, &mut p, &mut j).unwrap();
    let mut chain = vec![shared_root.pclone(&mut p, &mut j)];
    for v in [20u64, 30, 40, 50] {
        chain.push(Prc::new(v, &mut p, &mut j).unwrap());
    }
    let total: u64 = chain.iter().map(|n| n.get(&p)).sum();
    println!("{}", total);
    assert_eq!(total, 150);
    assert_eq!(Prc::strong_count(&shared_root, &p), 2);
    assert_eq!(j.finish(&mut p, true), TxOutcome::Committed);
}

#[test]
fn abort_prc() {
    let mut p = pool();
    let mut j = begin(0);
    let mut vl = VWeakList::new();
    let root = Parc::new(10, &mut p, &mut j).unwrap();
    assert_eq!(j.finish(&mut p, true), TxOutcome::Committed);
    let vweak_obj = Parc::demote(&root, &j, &mut vl, 1);

    j.enter();
    let strong_obj = vweak_obj.promote(&mut p, &mut j, &vl, 1);
    assert!(strong_obj.is_some());
    // destroy all strong pointers
    strong_obj.unwrap().drop(&mut p, &mut j, &mut vl);
    root.drop(&mut p, &mut j, &mut vl);
    assert!(vweak_obj.promote(&mut p, &mut j, &vl, 1).is_none());
    assert_eq!(j.finish(&mut p, true), TxOutcome::Committed);
}

#[test]
fn test_logs() {
    let mut p = pool();
    let mut j = begin(0);
    // the root: 0 while it has no node, else the node's word
    let mut root = PRefCell::new(&mut p, &mut j, 0).unwrap();
    assert_eq!(j.finish(&mut p, true), TxOutcome::Committed);
    let mut data = 0;
    for _ in 0..2 {
        j.enter();
        let r = root.borrow_mut();
        let head = r.get(&p);
        data = if head != 0 {
            r.set(&mut p, &mut j, head + 1);
            head + 1
        } else {
            let new_node = PRefCell::new(&mut p, &mut j, 1).unwrap();
            let v = new_node.read(&p);
            r.set(&mut p, &mut j, v);
            v
        };
        r.drop(&mut root);
        assert_eq!(j.finish(&mut p, true), TxOutcome::Committed);
        println!("data = {}", data);
    }
    assert_eq!(data, 2);
}

#[test]
fn pbox_raw_round_trip() {
    let mut p = pool();
    let mut j = begin(0);
    let b = Pbox::new(41, &mut p, &mut j).unwrap();
    let raw = Pbox::into_raw(b);
    assert_ne!(raw, NONE_OFF);
    let b2 = Pbox::from_raw(raw);
    assert_eq!(b2.get(&p), 41);
    assert_eq!(b2.off(), raw);
}

#[test]
fn test_vweak() {
    let mut p = pool();
    let mut j = begin(0);
    let mut vl = VWeakList::new();
    // the root holds a shared box of 10
    let root_v = Prc::new(10, &mut p, &mut j).unwrap();
    assert_eq!(j.finish(&mut p, true), TxOutcome::Committed);
    let vp = Prc::demote(&root_v, &mut vl, 1);

    j.enter();
    if let Some(q) = vp.promote(&mut p, &mut j, &vl, 1) {
        for _ in 0..4 {
            // drop a recently created volatile reference
            let vp2 = Prc::demote(&q, &mut vl, 1);
            vp2.drop(&mut vl, 1);
        }
        q.drop(&mut p, &mut j, &mut vl);
    } else {
        panic!("no data");
    }
    // dropping the old Prc: the root now holds a box of 12
    root_v.drop(&mut p, &mut j, &mut vl);
    let root_v = Prc::new(12, &mut p, &mut j).unwrap();
    assert!(vp.promote(&mut p, &mut j, &vl, 1).is_none());
    assert_eq!(j.finish(&mut p, true), TxOutcome::Committed);

    let x = Prc::demote(&root_v, &mut vl, 1);
    j.enter();
    // a volatile pointer of the current session reaches the box
    let d = x.promote(&mut p, &mut j, &vl, 1).unwrap();
    assert_eq!(d.get(&p), 12);
    d.drop(&mut p, &mut j, &mut vl);
    assert_eq!(j.finish(&mut p, true), TxOutcome::Committed);

    // the pool is opened again: a new generation, with a new list
    let vl2 = VWeakList::new();
    j.enter();
    assert!(x.promote(&mut p, &mut j, &vl2, 2).is_none());
    assert_eq!(j.finish(&mut p, true), TxOutcome::Committed);
}
