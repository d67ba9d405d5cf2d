//! Marker traits that sort types by where their values may live and travel,
//! and the small types that go with them.

use vstd::prelude::*;
use crate::pool::BuddyPool;
use crate::stm::Journal;

verus! {

/// Values of the type may be stored in persistent memory.
pub trait PSafe {}

/// Values of the type may leave a transaction.
pub trait TxOutSafe {}

/// Values of the type may enter a transaction.
pub trait TxInSafe {}

/// Values of the type may be asserted safe to enter a transaction.
pub trait LooseTxInUnsafe {}

/// Values of the type may be stored in volatile memory.
pub trait VSafe {}

/// Values of the type may be sent to another thread.
pub trait PSend {}

impl PSafe for u8 {}
impl PSafe for u64 {}
impl PSafe for usize {}
impl PSafe for bool {}
impl PSafe for crate::prc::PrcBox {}
impl PSafe for crate::parc::ParcInner {}
impl PSafe for crate::cell::LogCell {}
impl PSafe for crate::cell::PRefCell {}
impl TxInSafe for crate::cell::LogCell {}
impl TxInSafe for crate::cell::PRefCell {}
impl TxOutSafe for u64 {}
impl TxOutSafe for crate::prc::VWeak {}
impl TxOutSafe for crate::parc::VWeak {}
impl VSafe for crate::prc::VWeak {}
impl VSafe for crate::parc::VWeak {}

/// A value asserted safe to enter a transaction.
pub struct AssertTxInSafe<T>(pub T);

impl<T> AssertTxInSafe<T> {
    /// The wrapped value.
    pub fn get(&self) -> (r: &T)
        ensures
            *r == self.0,
    {
        &self.0
    }
}

impl<T> TxInSafe for AssertTxInSafe<T> {}

/// An opaque object, pointed to by type-erased pointers.
#[allow(non_camel_case_types)]
#[derive(Clone, Copy)]
pub struct c_void {}

/// The size that a type takes in persistent memory beyond its own bytes.
pub trait PmemUsage {
    /// Bytes of the persistent objects that a value points to.
    fn size_of() -> usize;
}

impl PmemUsage for u64 {
    fn size_of() -> (r: usize)
        ensures
            r == 0,
    {
        0
    }
}

/// A kind of persistent memory pool.
pub trait MemPool {
    /// The name of the pool kind.
    fn name() -> String;
}

impl MemPool for BuddyPool {
    fn name() -> (r: String)
        ensures
            r@ == "buddy"@,
    {
        "buddy".to_owned()
    }
}

/// A value that can stand as the root object of a fresh pool.
pub trait RootObj: Sized {
    /// The initial root object.
    fn init(journal: &Journal) -> Self;
}

impl RootObj for u64 {
    fn init(journal: &Journal) -> (r: u64)
        ensures
            r == 0,
    {
        0
    }
}

/// Conversion into a persistent value within a transaction.
pub trait PFrom<T>: Sized {
    /// The persistent value made from `x`.
    fn pfrom(x: T, journal: &Journal) -> Self;
}

impl PFrom<u64> for u64 {
    fn pfrom(x: u64, journal: &Journal) -> (r: u64)
        ensures
            r == x,
    {
        x
    }
}

/// A kind of event whose duration is measured, with its start time in
/// nanoseconds.
pub enum Measure {
    Sync(u64),
    Alloc(u64),
    Dealloc(u64),
    Deref(u64),
    DropLog(u64),
    DataLog(u64),
    MutexLog(u64),
    CommitLog(u64),
    RollbackLog(u64),
    ClearLog(u64),
    NewPage(u64),
    NewJournal(u64),
    Logging(u64),
    Nop(u64),
    Custom(u64, String),
    Batch(u64, String, u64),
    Transaction,
    Unknown,
}

/// A pass-through allocator of volatile memory.
pub struct Heap {}

impl MemPool for Heap {
    fn name() -> (r: String)
        ensures
            r@ == "heap"@,
    {
        "heap".to_owned()
    }
}

} // verus!
