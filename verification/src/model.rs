//! The pool as a mathematical state: a queue of free regions, a map of
//! active ones, and the budget that is left for fresh regions. The three
//! transitions of the pool are functions on that state, and the invariant
//! that every reachable state satisfies is proved here against them.

use vstd::prelude::*;
use crate::block::Region;

verus! {

/// Entry `i` of `free` exists and holds at least `size` bytes.
pub open spec fn fits(free: Seq<Region>, size: nat, i: int) -> bool {
    0 <= i < free.len() && free[i].size >= size
}

/// The index of the oldest entry of `free` that holds at least `size` bytes,
/// if there is one. Entries are never split, so a larger entry that comes
/// earlier wins over an exact match that comes later.
pub open spec fn first_fit(free: Seq<Region>, size: nat) -> Option<int>
    decreases free.len(),
{
    if free.len() == 0 {
        None
    } else {
        match first_fit(free.drop_last(), size) {
            Some(i) => Some(i),
            None => if free.last().size >= size {
                Some(free.len() - 1)
            } else {
                None
            },
        }
    }
}

/// `first_fit` names a fitting entry before which no entry fits, and names
/// none only when no entry fits.
pub proof fn lemma_first_fit(free: Seq<Region>, size: nat)
    ensures
        match first_fit(free, size) {
            Some(i) => fits(free, size, i) && forall|j: int| 0 <= j < i ==> !fits(free, size, j),
            None => forall|j: int| !fits(free, size, j),
        },
    decreases free.len(),
{
    if free.len() > 0 {
        let front = free.drop_last();
        lemma_first_fit(front, size);
        assert forall|j: int| 0 <= j < front.len() implies fits(front, size, j) == fits(
            free,
            size,
            j,
        ) by {}
    }
}

/// The state of a pool.
pub struct PoolState {
    /// The regions that wait for reuse, oldest release first.
    pub free: Seq<Region>,
    /// The regions that callers hold, by address, with their sizes.
    pub active: Map<nat, nat>,
    /// The bytes that fresh regions may still take.
    pub budget: nat,
}

impl PoolState {
    /// A pool that holds no region yet.
    pub open spec fn empty(capacity: nat) -> PoolState {
        PoolState { free: Seq::empty(), active: Map::empty(), budget: capacity }
    }

    /// Some free entry starts at `addr`.
    pub open spec fn in_free(self, addr: nat) -> bool {
        exists|i: int| 0 <= i < self.free.len() && (#[trigger] self.free[i]).addr == addr
    }

    /// The pool holds a region that starts at `addr`, free or active.
    pub open spec fn tracks(self, addr: nat) -> bool {
        self.active.contains_key(addr) || self.in_free(addr)
    }

    /// A request for `size` bytes finds the pool exhausted when no free
    /// entry is large enough and the budget does not cover a fresh region.
    pub open spec fn exhausted(self, size: nat) -> bool {
        first_fit(self.free, size) is None && self.budget < size
    }

    /// Every address at which the pool holds a region.
    pub open spec fn addresses(self) -> Set<nat> {
        Set::new(|a: nat| self.tracks(a))
    }

    /// What holds of every state a pool can reach: every region is valid,
    /// no address occurs twice among the free entries, and no free entry
    /// shares its address with an active region.
    pub open spec fn inv(self) -> bool {
        &&& self.active.dom().finite()
        &&& forall|i: int| 0 <= i < self.free.len() ==> (#[trigger] self.free[i]).valid()
        &&& forall|a: nat| #[trigger]
            self.active.contains_key(a) ==> (Region { addr: a, size: self.active[a] }).valid()
        &&& forall|i: int, j: int|
            0 <= i < j < self.free.len() ==> (#[trigger] self.free[i]).addr != (
            #[trigger] self.free[j]).addr
        &&& forall|i: int|
            0 <= i < self.free.len() ==> !self.active.contains_key((#[trigger] self.free[i]).addr)
    }

    /// Reuse: free entry `i` leaves the queue whole and becomes active. The
    /// budget is not touched.
    pub open spec fn reuse(self, i: int) -> PoolState {
        PoolState {
            free: self.free.remove(i),
            active: self.active.insert(self.free[i].addr, self.free[i].size),
            budget: self.budget,
        }
    }

    /// Growth: a fresh region becomes active and its size is taken from the
    /// budget.
    pub open spec fn grow(self, region: Region) -> PoolState {
        PoolState {
            free: self.free,
            active: self.active.insert(region.addr, region.size),
            budget: (self.budget - region.size) as nat,
        }
    }

    /// Release: the active region at `addr` goes to the tail of the free
    /// queue. Where no active region starts at `addr` nothing changes.
    pub open spec fn release(self, addr: nat) -> PoolState {
        if self.active.contains_key(addr) {
            PoolState {
                free: self.free.push(Region { addr, size: self.active[addr] }),
                active: self.active.remove(addr),
                budget: self.budget,
            }
        } else {
            self
        }
    }
}

/// A new pool satisfies the invariant.
pub proof fn lemma_empty_inv(capacity: nat)
    ensures
        PoolState::empty(capacity).inv(),
{
}

/// Reuse keeps the invariant, and the region it grants was not active
/// before.
pub proof fn lemma_reuse_inv(s: PoolState, i: int)
    requires
        s.inv(),
        0 <= i < s.free.len(),
    ensures
        s.reuse(i).inv(),
        !s.active.contains_key(s.free[i].addr),
        s.reuse(i).active.contains_key(s.free[i].addr),
        s.reuse(i).budget == s.budget,
{
    // Entry `k` of the shorter queue is entry `k` or `k + 1` of the old one.
    let t = s.reuse(i);
    assert forall|k: int| 0 <= k < t.free.len() implies (#[trigger] t.free[k]).valid()
        && !t.active.contains_key(t.free[k].addr) by {}
    assert forall|k: int, l: int| 0 <= k < l < t.free.len() implies (#[trigger] t.free[k]).addr
        != (#[trigger] t.free[l]).addr by {}
}

/// Growth by a valid region that the budget covers and whose address the
/// pool does not track yet keeps the invariant.
pub proof fn lemma_grow_inv(s: PoolState, region: Region)
    requires
        s.inv(),
        region.valid(),
        region.size <= s.budget,
        !s.tracks(region.addr),
    ensures
        s.grow(region).inv(),
        s.grow(region).budget + region.size == s.budget,
{
    let t = s.grow(region);
    assert forall|i: int| 0 <= i < t.free.len() implies !t.active.contains_key(
        (#[trigger] t.free[i]).addr,
    ) by {}
}

/// Release keeps the invariant and the budget.
pub proof fn lemma_release_inv(s: PoolState, addr: nat)
    requires
        s.inv(),
    ensures
        s.release(addr).inv(),
        s.release(addr).budget == s.budget,
        !s.release(addr).active.contains_key(addr),
{
    if s.active.contains_key(addr) {
        // The queue grows by one entry, which was active and so is new to it.
        let t = s.release(addr);
        assert forall|k: int| 0 <= k < t.free.len() implies (#[trigger] t.free[k]).valid()
            && !t.active.contains_key(t.free[k].addr) by {}
        assert forall|k: int, l: int| 0 <= k < l < t.free.len() implies (
        #[trigger] t.free[k]).addr != (#[trigger] t.free[l]).addr by {}
    }
}

/// The pool moves regions between its two collections and loses none:
/// reuse and release leave the set of addresses it holds as it was, and
/// growth adds the fresh address to it.
pub proof fn lemma_regions_stay(s: PoolState, i: int, addr: nat, region: Region)
    ensures
        0 <= i < s.free.len() ==> s.reuse(i).addresses() == s.addresses(),
        s.release(addr).addresses() == s.addresses(),
        s.grow(region).addresses() == s.addresses().insert(region.addr),
{
    if 0 <= i < s.free.len() {
        let t = s.reuse(i);
        assert forall|a: nat| t.tracks(a) == s.tracks(a) by {
            if s.in_free(a) {
                let k = choose|k: int| 0 <= k < s.free.len() && (#[trigger] s.free[k]).addr == a;
                if k < i {
                    assert(t.free[k] == s.free[k]);
                } else if k > i {
                    assert(t.free[k - 1] == s.free[k]);
                }
            }
        }
    }
    if s.active.contains_key(addr) {
        let t = s.release(addr);
        let n = s.free.len() as int;
        assert forall|a: nat| t.tracks(a) == s.tracks(a) by {
            if s.in_free(a) {
                let k = choose|k: int| 0 <= k < s.free.len() && (#[trigger] s.free[k]).addr == a;
                assert(t.free[k] == s.free[k]);
            }
            if a == addr {
                assert(t.free[n].addr == addr);
            }
        }
    }
    let t = s.grow(region);
    assert forall|a: nat| t.tracks(a) == (a == region.addr || s.tracks(a)) by {
        assert(t.free == s.free);
    }
}

/// No region is entered twice: a pool holds as many addresses as it has
/// entries, free and active together.
pub proof fn lemma_each_region_once(s: PoolState)
    requires
        s.inv(),
    ensures
        s.addresses().finite(),
        s.addresses().len() == s.free.len() + s.active.len(),
    decreases s.free.len(),
{
    if s.free.len() == 0 {
        assert(s.addresses() =~= s.active.dom());
    } else {
        let last = s.free.last();
        let n = s.free.len() - 1;
        let t = PoolState { free: s.free.drop_last(), active: s.active, budget: s.budget };
        assert(t.inv()) by {
            assert forall|i: int| 0 <= i < t.free.len() implies t.free[i] == s.free[i] by {}
        }
        lemma_each_region_once(t);
        assert(!t.tracks(last.addr));
        assert forall|a: nat| s.tracks(a) == (a == last.addr || t.tracks(a)) by {
            if s.in_free(a) {
                let k = choose|k: int| 0 <= k < s.free.len() && (#[trigger] s.free[k]).addr == a;
                if k < n {
                    assert(t.free[k] == s.free[k]);
                }
            }
        }
        assert(s.addresses() =~= t.addresses().insert(last.addr));
    }
}

/// A region that is released is the one that the next request gets, if the
/// request fits in it and in no entry that was free before it. Granting it
/// again leaves both collections as they were before the release.
pub proof fn lemma_release_then_reuse(s: PoolState, addr: nat, size: nat)
    requires
        s.active.contains_key(addr),
        size <= s.active[addr],
        first_fit(s.free, size) is None,
    ensures
        first_fit(s.release(addr).free, size) == Some(s.free.len() as int),
        s.release(addr).free[s.free.len() as int].addr == addr,
        s.release(addr).reuse(s.free.len() as int).active == s.active,
        s.release(addr).reuse(s.free.len() as int).free == s.free,
{
    let t = s.release(addr);
    let n = s.free.len() as int;
    assert(t.reuse(n).free =~= s.free);
}

} // verus!
