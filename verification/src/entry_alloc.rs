//! Fixed-capacity slot allocator for in-flight connection attempts.
//!
//! A pool of `capacity` cells, each either empty or holding exactly one
//! payload, plus a stack of free cell indices. Every index in
//! `[0, capacity)` is either on the free list (and its cell is empty) or
//! off it (and its cell is occupied): the free list and the occupied
//! cells partition the index range.
use vstd::prelude::*;
use vstd::set_lib::{lemma_int_range, set_int_range};
use vstd::set_lib::lemma_len_subset;

verus! {

pub struct EntryAllocator<T> {
    connections: Vec<Option<T>>,
    free_indices: Vec<usize>,
}

impl<T> EntryAllocator<T> {
    /// The fixed number of cells in the pool.
    pub closed spec fn capacity(self) -> nat {
        self.connections@.len()
    }

    /// The cells, in index order: `None` is a free cell.
    pub closed spec fn cells(self) -> Seq<Option<T>> {
        self.connections@
    }

    /// The stack of free indices; allocation pops from its end.
    pub closed spec fn free_list(self) -> Seq<usize> {
        self.free_indices@
    }

    pub open spec fn free_count(self) -> nat {
        self.free_list().len()
    }

    /// How many cells currently hold a payload.
    pub open spec fn occupied_count(self) -> nat {
        (self.capacity() - self.free_count()) as nat
    }

    /// The free list holds exactly the indices of the empty cells, each
    /// at most once, and fits within the pool.
    pub open spec fn wf(self) -> bool {
        &&& self.cells().len() == self.capacity()
        &&& forall|k: int|
            0 <= k < self.free_list().len() ==> (self.free_list()[k] as int)
                < self.cells().len() && self.cells()[self.free_list()[k] as int] is None
        &&& self.free_list().no_duplicates()
        &&& forall|i: int|
            0 <= i < self.cells().len() && self.cells()[i] is None ==> self.free_list().contains(
                i as usize,
            )
        &&& self.free_count() <= self.capacity()
        &&& self.capacity() <= usize::MAX
    }

    /// A list of distinct indices that all point into the pool and avoid
    /// the occupied cell `excluded` cannot fill the whole index range.
    proof fn lemma_free_list_slack(self, excluded: int)
        requires
            self.free_list().no_duplicates(),
            forall|k: int|
                0 <= k < self.free_list().len() ==> (self.free_list()[k] as int)
                    < self.cells().len() && (self.free_list()[k] as int) != excluded,
            0 <= excluded < self.cells().len(),
        ensures
            self.free_list().len() < self.cells().len(),
    {
        let fl = self.free_list().map_values(|u: usize| u as int);
        let n = self.cells().len() as int;
        assert(fl.no_duplicates()) by {
            assert forall|k1: int, k2: int|
                0 <= k1 < fl.len() && 0 <= k2 < fl.len() && k1 != k2 implies fl[k1]
                != fl[k2] by {
                assert(self.free_list()[k1] != self.free_list()[k2]);
            }
        }
        fl.unique_seq_to_set();
        let range = set_int_range(0, n).remove(excluded);
        assert(fl.to_set().subset_of(range)) by {
            assert forall|x: int| fl.to_set().contains(x) implies range.contains(x) by {
                let k = choose|k: int| 0 <= k < fl.len() && fl[k] == x;
                assert(0 <= x < n && x != excluded);
            }
        }
        lemma_int_range(0, n);
        assert(set_int_range(0, n).remove(excluded).len() == n - 1);
        lemma_len_subset(fl.to_set(), range);
    }

    /// Builds a pool of `size` empty cells whose free list holds every
    /// index in `[0, size)` in increasing order.
    pub fn new(size: usize) -> (r: Self)
        ensures
            r.wf(),
            r.capacity() == size,
            r.free_count() == size,
            r.occupied_count() == 0,
            forall|i: int| 0 <= i < size ==> r.cells()[i] is None,
            forall|k: int| 0 <= k < size ==> r.free_list()[k] == k,
    {
        let mut connections: Vec<Option<T>> = Vec::new();
        let mut i: usize = 0;
        while i < size
            invariant
                i <= size,
                connections@.len() == i,
                forall|j: int| 0 <= j < i ==> connections@[j] is None,
            decreases size - i,
        {
            connections.push(None);
            i = i + 1;
        }
        let mut free_indices: Vec<usize> = Vec::new();
        let mut i: usize = 0;
        while i < size
            invariant
                i <= size,
                free_indices@.len() == i,
                forall|k: int| 0 <= k < i ==> free_indices@[k] == k,
            decreases size - i,
        {
            free_indices.push(i);
            i = i + 1;
        }
        proof {
            assert forall|j: int|
                0 <= j < connections@.len() && connections@[j] is None implies free_indices@
                .contains(j as usize) by {
                assert(free_indices@[j] == j as usize);
            }
        }
        Self { connections, free_indices }
    }

    /// Stores `conn` in a free cell: fails exactly when the pool is
    /// full, and otherwise pops the top free index, occupies that cell,
    /// and returns the index together with a handle to the stored value.
    pub fn allocate(&mut self, conn: T) -> (r: Option<(usize, &T)>)
        requires
            old(self).wf(),
        ensures
            final(self).wf(),
            final(self).capacity() == old(self).capacity(),
            old(self).free_count() == 0 ==> r is None && final(self).cells() == old(self).cells()
                && final(self).free_list() == old(self).free_list(),
            old(self).free_count() > 0 ==> {
                let idx = old(self).free_list().last();
                &&& r is Some
                &&& r->Some_0.0 == idx
                &&& (idx as int) < old(self).capacity()
                &&& *r->Some_0.1 == conn
                &&& final(self).cells() == old(self).cells().update(idx as int, Some(conn))
                &&& final(self).free_list() == old(self).free_list().drop_last()
                &&& final(self).occupied_count() == old(self).occupied_count() + 1
            },
    {
        match self.free_indices.pop() {
            None => None,
            Some(idx) => {
                proof {
                    assert(idx == old(self).free_list().last());
                    assert((idx as int) < old(self).cells().len());
                    assert(self.free_list() =~= old(self).free_list().drop_last());
                }
                self.connections[idx] = Some(conn);
                proof {
                    assert forall|i: int|
                        0 <= i < self.cells().len() && self.cells()[i] is None implies self
                        .free_list().contains(i as usize) by {
                        assert(self.cells() == old(self).cells().update(idx as int, Some(conn)));
                        assert(i != idx as int);
                        assert(old(self).cells()[i] is None);
                        assert(old(self).free_list().contains(i as usize));
                        let k = choose|k: int|
                            0 <= k < old(self).free_list().len() && old(self).free_list()[k] == (
                            i as usize);
                        assert(old(self).free_list()[old(self).free_list().len() - 1] == idx);
                        assert(k != old(self).free_list().len() - 1);
                        assert(self.free_list()[k] == i as usize);
                    }
                }
                match &self.connections[idx] {
                    Some(stored) => Some((idx, stored)),
                    None => {
                        proof {
                            assert(false);
                        }
                        None
                    },
                }
            },
        }
    }

    /// Clears the cell at `idx`: if it is occupied, pushes `idx` back on
    /// the free list and hands the payload out; if it is already free,
    /// leaves the pool unchanged and releases nothing.
    pub fn dealloc(&mut self, idx: usize) -> (r: Option<T>)
        requires
            old(self).wf(),
            idx < old(self).capacity(),
        ensures
            final(self).wf(),
            final(self).capacity() == old(self).capacity(),
            old(self).cells()[idx as int] is Some ==> {
                &&& r == old(self).cells()[idx as int]
                &&& final(self).cells() == old(self).cells().update(idx as int, None)
                &&& final(self).free_list() == old(self).free_list().push(idx)
                &&& final(self).occupied_count() == old(self).occupied_count() - 1
            },
            old(self).cells()[idx as int] is None ==> r is None && final(self).cells() == old(
                self,
            ).cells() && final(self).free_list() == old(self).free_list(),
    {
        let cell = &mut self.connections[idx];
        match cell.take() {
            Some(conn) => {
                proof {
                    assert(self.cells() =~= old(self).cells().update(idx as int, None));
                    assert forall|k: int|
                        0 <= k < old(self).free_list().len() implies old(self).free_list()[k]
                        != idx by {
                        assert(old(self).cells()[old(self).free_list()[k] as int] is None);
                    }
                    old(self).lemma_free_list_slack(idx as int);
                }
                self.free_indices.push(idx);
                proof {
                    let fl = self.free_list();
                    assert(fl =~= old(self).free_list().push(idx));
                    assert forall|i: int|
                        0 <= i < self.cells().len() && self.cells()[i] is None implies fl.contains(
                            i as usize,
                        ) by {
                        if i == idx as int {
                            assert(fl[fl.len() - 1] == idx);
                        } else {
                            assert(old(self).cells()[i] is None);
                            assert(old(self).free_list().contains(i as usize));
                            let k = choose|k: int|
                                0 <= k < old(self).free_list().len() && old(self).free_list()[k]
                                    == (i as usize);
                            assert(fl[k] == i as usize);
                        }
                    }
                }
                Some(conn)
            },
            None => {
                proof {
                    assert(self.cells() =~= old(self).cells());
                }
                None
            },
        }
    }

    /// Slot-reuse law: on a full pool, releasing two occupied slots in
    /// turn leaves exactly those two indices on the free list, so the
    /// next two allocations are owed success and reuse them — the most
    /// recently freed slot first — after which the pool is full again.
    /// No other event (in particular no timeout) is needed in between.
    /// The intermediate states are constrained exactly as `dealloc` and
    /// `allocate` leave them.
    pub proof fn lemma_release_then_reuse(
        p0: Self,
        p1: Self,
        p2: Self,
        p3: Self,
        p4: Self,
        i1: usize,
        i2: usize,
        c3: T,
        c4: T,
    )
        requires
            p0.wf(),
            p0.free_count() == 0,
            i1 < p0.capacity(),
            i2 < p0.capacity(),
            i1 != i2,
            p1.cells() == p0.cells().update(i1 as int, None),
            p1.free_list() == p0.free_list().push(i1),
            p2.cells() == p1.cells().update(i2 as int, None),
            p2.free_list() == p1.free_list().push(i2),
            p3.cells() == p2.cells().update(p2.free_list().last() as int, Some(c3)),
            p3.free_list() == p2.free_list().drop_last(),
            p4.cells() == p3.cells().update(p3.free_list().last() as int, Some(c4)),
            p4.free_list() == p3.free_list().drop_last(),
        ensures
            p2.free_count() == 2,
            p3.free_count() == 1,
            p2.free_list().last() == i2,
            p3.free_list().last() == i1,
            p3.cells()[i2 as int] == Some(c3),
            p4.cells()[i1 as int] == Some(c4),
            p4.cells()[i2 as int] == Some(c3),
            p4.free_count() == 0,
    {
        assert(p2.free_list() =~= seq![i1, i2]);
        assert(p3.free_list() =~= seq![i1]);
        assert(p4.free_list() =~= Seq::<usize>::empty());
    }

    /// True exactly when no free cell is left.
    pub fn is_full(&self) -> (r: bool)
        ensures
            r == (self.free_count() == 0),
    {
        self.free_indices.is_empty()
    }

    /// True exactly when every cell is free.
    pub fn is_empty(&self) -> (r: bool)
        requires
            self.wf(),
        ensures
            r == (self.occupied_count() == 0),
    {
        self.free_indices.len() == self.connections.len()
    }

    /// Number of occupied cells: always the capacity minus the length of
    /// the free list, and so never more than the capacity.
    pub fn size(&self) -> (r: usize)
        requires
            self.wf(),
        ensures
            r == self.occupied_count(),
            r <= self.capacity(),
    {
        self.connections.len() - self.free_indices.len()
    }
}

} // verus!
