//! Intrusive fixed-capacity pool allocator.
//!
//! The pool threads a singly linked free list through the slots of a
//! caller-supplied backing array and hands slots out in O(1), never
//! scanning. A free slot's storage carries the index of the next free
//! slot, with the slot count itself as the end-of-list sentinel; a lent
//! slot carries nothing, because its value travelled out to the caller.
//! The list of free slot indices, in chain order, is the ghost view the
//! contracts speak of.
//!
//! The pool is not internally synchronized: callers that share one pool
//! between a task and an interrupt handler must wrap it in
//! [`crate::tasks::CriticalLock`] or otherwise serialize access.
use vstd::prelude::*;

verus! {

/// One slot of the backing array: either free, threaded into the free
/// list and still holding its value, or lent out to a caller.
enum Slot<T> {
    Free { next: usize, value: T },
    Lent,
}

spec fn slot_is_free<T>(s: Slot<T>) -> bool {
    s is Free
}

spec fn slot_next<T>(s: Slot<T>) -> int {
    match s {
        Slot::Free { next, .. } => next as int,
        Slot::Lent => -1,
    }
}

spec fn slot_val<T>(s: Slot<T>) -> T {
    match s {
        Slot::Free { value, .. } => value,
        Slot::Lent => arbitrary(),
    }
}

/// A fixed-capacity O(1) allocator over a backing array it owns for its
/// whole lifetime. `first_block` is the index of the head of the free
/// list, or the slot count when no slot is free; `free_list` is the ghost
/// image of the whole chain.
pub struct Pool<T> {
    slots: Vec<Slot<T>>,
    first_block: usize,
    free_list: Ghost<Seq<int>>,
}

impl<T> Pool<T> {
    /// Number of slots in the backing array; fixed at construction.
    pub closed spec fn capacity(self) -> nat {
        self.slots@.len()
    }

    /// The indices of the currently free slots, in free-list order.
    pub closed spec fn free_list(self) -> Seq<int> {
        self.free_list@
    }

    /// How many slots a `take` can still succeed on.
    pub open spec fn num_free(self) -> nat {
        self.free_list().len()
    }

    /// Slot `i` is on the free list.
    pub open spec fn is_free(self, i: int) -> bool {
        self.free_list().contains(i)
    }

    /// Slot `i` is currently lent out to a caller.
    pub open spec fn is_lent(self, i: int) -> bool {
        0 <= i < self.capacity() && !self.is_free(i)
    }

    /// The value stored in free slot `i`; it is what the next `take`
    /// reaching `i` will hand out.
    pub closed spec fn slot_value(self, i: int) -> T
        recommends
            self.is_free(i),
    {
        slot_val(self.slots@[i])
    }

    spec fn sentinel(self) -> int {
        self.capacity() as int
    }

    spec fn next_of(self, k: int) -> int {
        if k + 1 < self.free_list().len() {
            self.free_list()[k + 1]
        } else {
            self.sentinel()
        }
    }

    /// The free list is an acyclic chain of exactly the unallocated
    /// slots: its entries are distinct in-range indices, each free slot's
    /// storage names its successor (or the sentinel at the tail), the
    /// head index mirrors the front of the chain, and every slot off the
    /// chain is lent out.
    pub closed spec fn wf(self) -> bool {
        &&& self.free_list().no_duplicates()
        &&& forall|k: int|
            0 <= k < self.free_list().len() ==> 0 <= #[trigger] self.free_list()[k]
                < self.capacity()
        &&& forall|k: int|
            0 <= k < self.free_list().len() ==> slot_is_free(
                #[trigger] self.slots@[self.free_list()[k]],
            )
        &&& forall|k: int|
            0 <= k < self.free_list().len() ==> slot_next(
                #[trigger] self.slots@[self.free_list()[k]],
            ) == self.next_of(k)
        &&& self.first_block as int == if self.num_free() == 0 {
            self.sentinel()
        } else {
            self.free_list()[0]
        }
        &&& forall|j: int|
            0 <= j < self.capacity() && !self.free_list().contains(j) ==> !slot_is_free(
                #[trigger] self.slots@[j],
            )
    }

    /// Consumes the backing array and threads every slot into the free
    /// list in index order — slot `i` points at slot `i + 1`, the last
    /// slot at the sentinel — so the pool starts with every slot free and
    /// the first slot at the head. O(n) in the slot count, once.
    pub fn new(backing_mem: Vec<T>) -> (pool: Pool<T>)
        requires
            backing_mem@.len() >= 1,
        ensures
            pool.wf(),
            pool.capacity() == backing_mem@.len(),
            pool.free_list() == Seq::new(backing_mem@.len(), |k: int| k),
            forall|k: int| 0 <= k < backing_mem@.len() ==> pool.slot_value(k) == backing_mem@[k],
    {
        let ghost orig = backing_mem@;
        let n = backing_mem.len();
        let mut backing_mem = backing_mem;
        let mut slots: Vec<Slot<T>> = Vec::new();
        let mut pos: usize = 0;
        while pos < n
            invariant
                n == orig.len(),
                slots@.len() == pos,
                pos <= n,
                backing_mem@ == orig.skip(pos as int),
                forall|i: int|
                    0 <= i < pos ==> slot_is_free(#[trigger] slots@[i]) && slot_next(slots@[i])
                        == i + 1 && slot_val(slots@[i]) == orig[i],
            decreases n - pos,
        {
            let value = backing_mem.remove(0);
            assert(value == orig[pos as int]);
            slots.push(Slot::Free { next: pos + 1, value });
            pos = pos + 1;
            assert(backing_mem@ =~= orig.skip(pos as int));
        }
        let pool = Pool { slots, first_block: 0, free_list: Ghost(Seq::new(n as nat, |k: int| k)) };
        proof {
            assert forall|j: int| 0 <= j < n implies pool.free_list().contains(j) by {
                assert(pool.free_list()[j] == j);
            }
            assert(pool.wf());
        }
        pool
    }

    /// Hands out the head slot of the free list, advancing the head to
    /// the slot the taken slot's storage was pointing at: a `take`
    /// succeeds exactly when a slot is free, returns the index at the
    /// front of the free chain together with the value stored there, and
    /// leaves every other slot untouched. O(1), never scans. When no slot
    /// is free the pool is unchanged and "no slot available" is the
    /// explicit result.
    pub fn take(&mut self) -> (r: Option<(usize, T)>)
        requires
            old(self).wf(),
        ensures
            final(self).wf(),
            final(self).capacity() == old(self).capacity(),
            old(self).num_free() == 0 ==> r is None && final(self).free_list() == old(self).free_list(),
            old(self).num_free() > 0 ==> (r matches Some(p)
                && p.0 as int == old(self).free_list()[0]
                && p.1 == old(self).slot_value(old(self).free_list()[0])
                && final(self).free_list() == old(self).free_list().drop_first()),
            forall|j: int|
                final(self).is_free(j) ==> #[trigger] final(self).slot_value(j)
                    == old(self).slot_value(j),
    {
        if self.first_block < self.slots.len() {
            proof {
                if self.free_list@.len() == 0 {
                    assert(self.first_block as int == self.sentinel());
                    assert(false);
                }
            }
            let i = self.first_block;
            assert(i as int == self.free_list@[0]);
            let mut slot = Slot::Lent;
            core::mem::swap(&mut slot, &mut self.slots[i]);
            assert(slot_is_free(slot));
            match slot {
                Slot::Free { next, value } => {
                    self.first_block = next;
                    let ghost old_fl = self.free_list@;
                    let ghost old_slots = old(self).slots@;
                    self.free_list = Ghost(old_fl.drop_first());
                    proof {
                        let fl = self.free_list@;
                        assert(fl =~= old_fl.subrange(1, old_fl.len() as int));
                        assert forall|k: int| 0 <= k < fl.len() implies #[trigger] fl[k]
                            == old_fl[k + 1] by {}
                        assert forall|k: int| 0 <= k < fl.len() implies fl[k] != i as int by {
                            assert(old_fl[k + 1] != old_fl[0]);
                        }
                        assert forall|j: int|
                            0 <= j < self.capacity() && !fl.contains(j) implies !slot_is_free(
                            #[trigger] self.slots@[j],
                        ) by {
                            if j != i as int {
                                if old_fl.contains(j) {
                                    let m = choose|m: int|
                                        0 <= m < old_fl.len() && old_fl[m] == j;
                                    assert(m != 0);
                                    assert(fl[m - 1] == j);
                                    assert(fl.contains(j));
                                }
                            }
                        }
                        assert forall|j: int| fl.contains(j) implies j != i as int
                            && self.slots@[j] == old_slots[j] by {
                            let m = choose|m: int| 0 <= m < fl.len() && fl[m] == j;
                            assert(old_fl[m + 1] == j);
                            assert(old_fl[m + 1] != old_fl[0]);
                        }
                        assert(self.wf());
                    }
                    Some((i, value))
                }
                Slot::Lent => unreached(),
            }
        } else {
            proof {
                if self.free_list@.len() > 0 {
                    assert(self.first_block as int == self.free_list@[0]);
                    assert(false);
                }
            }
            None
        }
    }

    /// Accepts back a previously taken slot: overwrites the slot's
    /// storage with the index of the current head and makes the slot the
    /// new head, so its value is what the very next `take` hands out.
    /// O(1). The precondition says the slot is one of this pool's and is
    /// currently lent out — giving back a foreign slot, or the same slot
    /// twice without an intervening take, is the caller contract
    /// violation those clauses rule out.
    pub fn give(&mut self, block: usize, value: T)
        requires
            old(self).wf(),
            old(self).is_lent(block as int),
        ensures
            final(self).wf(),
            final(self).capacity() == old(self).capacity(),
            final(self).free_list() == seq![block as int].add(old(self).free_list()),
            final(self).slot_value(block as int) == value,
            forall|j: int|
                old(self).is_free(j) ==> final(self).is_free(j) && #[trigger] final(self).slot_value(j)
                    == old(self).slot_value(j),
    {
        let second = self.first_block;
        self.first_block = block;
        self.slots[block] = Slot::Free { next: second, value };
        let ghost old_fl = old(self).free_list@;
        let ghost old_slots = old(self).slots@;
        self.free_list = Ghost(seq![block as int].add(old_fl));
        proof {
            let fl = self.free_list@;
            assert forall|k: int| 1 <= k < fl.len() implies #[trigger] fl[k] == old_fl[k - 1] by {}
            assert forall|j: int| old_fl.contains(j) implies j != block as int
                && self.slots@[j] == old_slots[j] && fl.contains(j) by {
                let m = choose|m: int| 0 <= m < old_fl.len() && old_fl[m] == j;
                assert(fl[m + 1] == j);
            }
            assert forall|j: int|
                0 <= j < self.capacity() && !fl.contains(j) implies !slot_is_free(
                #[trigger] self.slots@[j],
            ) by {
                if old_fl.contains(j) {
                    assert(fl.contains(j));
                } else {
                    assert(fl[0] == block as int);
                    if j == block as int {
                        assert(fl.contains(j));
                    }
                }
            }
            assert(fl.no_duplicates()) by {
                assert forall|a: int, b: int|
                    0 <= a < fl.len() && 0 <= b < fl.len() && a != b implies fl[a] != fl[b] by {
                    if a == 0 {
                        assert(old_fl.contains(fl[b]));
                    } else if b == 0 {
                        assert(old_fl.contains(fl[a]));
                    }
                }
            }
            assert(self.wf());
        }
    }
}

/// Publishes the free-list invariant: no slot index appears twice on the
/// free list of a well-formed pool, and every entry names a real slot —
/// so consecutive takes can never hand the same slot out twice, and no
/// slot is ever lost to the chain.
pub proof fn lemma_free_slots_distinct<T>(pool: Pool<T>)
    requires
        pool.wf(),
    ensures
        pool.free_list().no_duplicates(),
        forall|k: int|
            0 <= k < pool.free_list().len() ==> 0 <= #[trigger] pool.free_list()[k]
                < pool.capacity(),
{
}

/// The state of a pool's free list after `k` further `take` calls, each
/// of which removes the head of the chain, as
/// [`Pool::take`] promises.
pub open spec fn pool_takes(fl: Seq<int>, k: nat) -> Seq<int>
    recommends
        k <= fl.len(),
    decreases k,
{
    if k == 0 {
        fl
    } else {
        pool_takes(fl, (k - 1) as nat).drop_first()
    }
}

proof fn lemma_pool_takes_identity(n: nat, k: nat)
    requires
        k <= n,
    ensures
        pool_takes(Seq::new(n, |i: int| i), k) =~= Seq::new((n - k) as nat, |i: int| i + k),
    decreases k,
{
    if k > 0 {
        lemma_pool_takes_identity(n, (k - 1) as nat);
        assert(pool_takes(Seq::new(n, |i: int| i), k) =~= Seq::new(
            (n - (k - 1)) as nat,
            |i: int| i + k - 1,
        ).drop_first());
    }
}

/// Exhaustion law for a freshly built pool over `n` slots, on the free
/// lists its contracts describe: the first `n` `take` calls all succeed
/// — the `k`-th hands out slot `k`, so no slot is handed out twice — the
/// `(n + 1)`-th finds the free list empty and fails, and once a single
/// slot has been given back, exactly one further `take` succeeds (with
/// that very slot) before takes fail again.
pub proof fn lemma_pool_exhaustion(n: nat, k: nat)
    requires
        k < n,
    ensures
        pool_takes(Seq::new(n, |i: int| i), k).len() > 0,
        pool_takes(Seq::new(n, |i: int| i), k)[0] == k,
        pool_takes(Seq::new(n, |i: int| i), n).len() == 0,
        forall|j: int| (#[trigger] pool_takes(seq![j], 1)).len() == 0,
{
    lemma_pool_takes_identity(n, k);
    lemma_pool_takes_identity(n, n);
    assert forall|j: int| (#[trigger] pool_takes(seq![j], 1)).len() == 0 by {
        assert(pool_takes(seq![j], 0) == seq![j]);
        assert(pool_takes(seq![j], 1) =~= seq![j].drop_first());
    }
}

} // verus!
