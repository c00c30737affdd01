//! Decision logic of the scan loop.
//!
//! The loop alternates a fill phase, which admits new connection
//! attempts while a slot is free and the enumerator still has
//! addresses, and a drain phase, which handles kernel completions one
//! by one. The kernel I/O itself (opening sockets, submitting linked
//! connect/timeout pairs, waiting for completions) happens outside;
//! this module decides, for each event, what happens to the slots and
//! what the caller must do next, and those decisions are verified.
use vstd::prelude::*;
use crate::entry_alloc::EntryAllocator;
use crate::ip_iterator::{residue, IpIterator};

verus! {

/// Fixed number of concurrently open connection attempts.
pub const MAX_CONNECTIONS: usize = 2048;

/// Deadline for one connect attempt, in milliseconds.
pub const CONNECT_TIMEOUT_MS: u64 = 500;

/// The drain phase waits for at least this many completions.
pub const RING_BATCH_SIZE: usize = 32;

/// The port every attempt connects to.
pub const TARGET_PORT: u16 = 25565;

/// Correlation tag reserved for timeout completions, distinct from
/// every valid slot index.
pub const TIMEOUT_USER_DATA: u64 = u64::MAX;

/// What the scan loop decides about one kernel completion.
pub enum CompletionOutcome<T> {
    /// A linked deadline fired or was dropped: no slot action, since
    /// the paired connect completion still arrives separately and
    /// carries the real status.
    TimeoutTick,
    /// The connect succeeded: the slot was released and the record is
    /// handed out to the probe.
    Dispatch(T),
    /// The connect failed, was refused or was canceled by its
    /// deadline: the slot was released and the record is handed back
    /// to be dropped.
    Discard(T),
    /// The slot was already free: nothing released.
    StaleSlot,
}

/// The state one scan run owns: the slot pool of in-flight attempts
/// and the address enumerator, touched only from the loop's single
/// control flow.
pub struct ScanState<T> {
    pool: EntryAllocator<T>,
    ips: IpIterator,
}

impl<T> ScanState<T> {
    /// The slot pool.
    pub closed spec fn pool(self) -> EntryAllocator<T> {
        self.pool
    }

    /// The address enumerator.
    pub closed spec fn ips(self) -> IpIterator {
        self.ips
    }

    pub open spec fn capacity(self) -> nat {
        self.pool().capacity()
    }

    /// How many attempt records the pool currently owns.
    pub open spec fn in_flight(self) -> nat {
        self.pool().occupied_count()
    }

    /// Both components are well formed, and every slot index is
    /// distinguishable from the reserved timeout tag.
    pub open spec fn wf(self) -> bool {
        &&& self.pool().wf()
        &&& self.ips().wf()
        &&& self.capacity() < TIMEOUT_USER_DATA as nat
    }

    /// Creates the context for one scan run: an empty pool of
    /// `capacity` slots and the given enumerator.
    pub fn new(capacity: usize, ips: IpIterator) -> (s: Self)
        requires
            ips.wf(),
            (capacity as u64) < TIMEOUT_USER_DATA,
        ensures
            s.wf(),
            s.capacity() == capacity,
            s.in_flight() == 0,
            s.ips() == ips,
            s.pool().free_count() == capacity,
            forall|i: int| 0 <= i < capacity ==> s.pool().cells()[i] is None,
            forall|k: int| 0 <= k < capacity ==> s.pool().free_list()[k] == k,
    {
        ScanState { pool: EntryAllocator::new(capacity), ips }
    }

    /// Fill-phase admission: yields the next address to attempt only
    /// while a slot is free and the enumerator is still active. When
    /// the pool is full the enumerator is not advanced, so no address
    /// is ever skipped; when the enumerator is exhausted nothing is
    /// yielded and in-flight attempts simply continue.
    pub fn next_target(&mut self) -> (r: Option<u32>)
        requires
            old(self).wf(),
        ensures
            final(self).wf(),
            final(self).pool() == old(self).pool(),
            final(self).ips().spec_first() == old(self).ips().spec_first(),
            final(self).ips().spec_step() == old(self).ips().spec_step(),
            old(self).pool().free_count() == 0 ==> r is None && final(self).ips() == old(
                self,
            ).ips(),
            old(self).pool().free_count() > 0 && !old(self).ips().is_active() ==> r is None
                && final(self).ips() == old(self).ips(),
            old(self).pool().free_count() > 0 && old(self).ips().is_active() ==> {
                let v = residue(
                    old(self).ips().spec_first(),
                    old(self).ips().spec_step(),
                    old(self).ips().emitted() + 1,
                );
                &&& r == Some(v as u32)
                &&& final(self).ips().emitted() == old(self).ips().emitted() + 1
                &&& (final(self).ips().is_active() <==> v != old(self).ips().spec_first())
            },
    {
        if self.pool.is_full() {
            return None;
        }
        self.ips.next()
    }

    /// Admits one attempt record into a free slot and returns its
    /// index and a handle to the stored record; fails exactly when
    /// every slot is in flight. The pool is the sole admission
    /// control: records in flight never pass the configured capacity.
    pub fn register(&mut self, record: T) -> (r: Option<(usize, &T)>)
        requires
            old(self).wf(),
        ensures
            final(self).wf(),
            final(self).capacity() == old(self).capacity(),
            final(self).ips() == old(self).ips(),
            final(self).in_flight() <= final(self).capacity(),
            old(self).pool().free_count() == 0 ==> r is None && final(self).pool().cells() == old(
                self,
            ).pool().cells() && final(self).pool().free_list() == old(self).pool().free_list(),
            old(self).pool().free_count() > 0 ==> {
                let idx = old(self).pool().free_list().last();
                &&& r is Some
                &&& r->Some_0.0 == idx
                &&& *r->Some_0.1 == record
                &&& old(self).pool().cells()[idx as int] is None
                &&& final(self).pool().cells() == old(self).pool().cells().update(
                    idx as int,
                    Some(record),
                )
                &&& final(self).pool().free_list() == old(self).pool().free_list().drop_last()
                &&& final(self).in_flight() == old(self).in_flight() + 1
            },
    {
        self.pool.allocate(record)
    }

    /// Drain-phase handling of one kernel completion, identified by
    /// its correlation tag and carrying the operation's result code.
    ///
    /// A timeout completion never touches a slot: the paired connect
    /// completion still arrives separately with the real status, so
    /// despite two related completions each slot is released exactly
    /// once. A connect completion releases its slot first; a zero
    /// result then hands the record out for probing, and any other
    /// result (refused, unreachable, canceled by the deadline) hands
    /// it back to be dropped silently.
    pub fn on_completion(&mut self, user_data: u64, result: i32) -> (r: CompletionOutcome<T>)
        requires
            old(self).wf(),
            user_data == TIMEOUT_USER_DATA || (user_data as nat) < old(self).capacity(),
        ensures
            final(self).wf(),
            final(self).capacity() == old(self).capacity(),
            final(self).ips() == old(self).ips(),
            user_data == TIMEOUT_USER_DATA ==> r is TimeoutTick && final(self).pool() == old(
                self,
            ).pool(),
            user_data != TIMEOUT_USER_DATA && old(self).pool().cells()[user_data as int]
                is Some ==> {
                let record = old(self).pool().cells()[user_data as int]->Some_0;
                &&& final(self).pool().cells() == old(self).pool().cells().update(
                    user_data as int,
                    None,
                )
                &&& final(self).pool().free_list() == old(self).pool().free_list().push(
                    user_data as usize,
                )
                &&& final(self).in_flight() == old(self).in_flight() - 1
                &&& result == 0 ==> r == CompletionOutcome::Dispatch(record)
                &&& result != 0 ==> r == CompletionOutcome::Discard(record)
            },
            user_data != TIMEOUT_USER_DATA && old(self).pool().cells()[user_data as int]
                is None ==> r is StaleSlot && final(self).pool().cells() == old(
                self,
            ).pool().cells() && final(self).pool().free_list() == old(self).pool().free_list(),
    {
        if user_data == TIMEOUT_USER_DATA {
            return CompletionOutcome::TimeoutTick;
        }
        let idx = user_data as usize;
        match self.pool.dealloc(idx) {
            Some(record) => {
                if result == 0 {
                    CompletionOutcome::Dispatch(record)
                } else {
                    CompletionOutcome::Discard(record)
                }
            },
            None => CompletionOutcome::StaleSlot,
        }
    }

    /// Number of records currently in flight, never above the
    /// capacity.
    pub fn in_flight_count(&self) -> (r: usize)
        requires
            self.wf(),
        ensures
            r == self.in_flight(),
            r <= self.capacity(),
    {
        self.pool.size()
    }
}

/// Admission-control law: in any well-formed scan state the attempt
/// records owned by the pool never exceed the configured capacity,
/// whatever interleaving of admissions, failures and timeouts led to
/// it.
pub proof fn lemma_admission_bound<T>(s: ScanState<T>)
    requires
        s.wf(),
    ensures
        s.in_flight() <= s.capacity(),
{
}

} // verus!
