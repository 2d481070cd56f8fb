//! The pool manager: it answers requests from the regions that callers have
//! given back before it spends budget on a fresh one, and it takes regions
//! back by the address of their buffer.

use std::collections::VecDeque;
use vstd::prelude::*;
use crate::block::{Handle, MemoryBlock, Region, ALIGNMENT};
use crate::model::{
    first_fit,
    fits,
    lemma_empty_inv,
    lemma_first_fit,
    lemma_grow_inv,
    lemma_release_inv,
    lemma_reuse_inv,
    PoolState,
};

verus! {

/// The regions of `blocks`, in order.
spec fn regions(blocks: Seq<MemoryBlock>) -> Seq<Region> {
    blocks.map_values(|b: MemoryBlock| b@)
}

/// Some block of `blocks` starts at `addr`.
spec fn holds(blocks: Seq<MemoryBlock>, addr: nat) -> bool {
    exists|i: int| 0 <= i < blocks.len() && (#[trigger] blocks[i])@.addr == addr
}

/// Where in `blocks` the block that starts at `addr` stands.
spec fn position(blocks: Seq<MemoryBlock>, addr: nat) -> int {
    choose|i: int| 0 <= i < blocks.len() && (#[trigger] blocks[i])@.addr == addr
}

/// No two blocks of `blocks` start at the same address.
spec fn distinct(blocks: Seq<MemoryBlock>) -> bool {
    forall|i: int, j: int|
        0 <= i < j < blocks.len() ==> (#[trigger] blocks[i])@.addr != (#[trigger] blocks[j])@.addr
}

/// The sizes of `blocks`, by the address each block starts at.
spec fn by_address(blocks: Seq<MemoryBlock>) -> Map<nat, nat> {
    Map::new(|a: nat| holds(blocks, a), |a: nat| blocks[position(blocks, a)]@.size)
}

/// Among blocks with distinct addresses, the address of block `i` leads back
/// to `i`, and to its size.
proof fn lemma_position(blocks: Seq<MemoryBlock>, i: int)
    requires
        distinct(blocks),
        0 <= i < blocks.len(),
    ensures
        holds(blocks, blocks[i]@.addr),
        position(blocks, blocks[i]@.addr) == i,
        by_address(blocks).contains_key(blocks[i]@.addr),
        by_address(blocks)[blocks[i]@.addr] == blocks[i]@.size,
{
    // The address of block `i` is held, so `position` picks an index at
    // which it stands, and no other index has it.
    assert(holds(blocks, blocks[i]@.addr));
}

/// A block at an address not held yet adds one entry to the map.
proof fn lemma_by_address_push(blocks: Seq<MemoryBlock>, block: MemoryBlock)
    requires
        distinct(blocks),
        !holds(blocks, block@.addr),
    ensures
        distinct(blocks.push(block)),
        by_address(blocks.push(block)) == by_address(blocks).insert(block@.addr, block@.size),
{
    let longer = blocks.push(block);
    let n = blocks.len() as int;
    assert forall|i: int, j: int| 0 <= i < j < longer.len() implies (#[trigger] longer[i])@.addr != (
    #[trigger] longer[j])@.addr by {}
    assert forall|a: nat| holds(longer, a) <==> (a == block@.addr || holds(blocks, a)) by {
        if a == block@.addr {
            assert(longer[n]@.addr == a);
        }
        if holds(blocks, a) {
            let i = position(blocks, a);
            assert(longer[i]@.addr == a);
        }
    }
    assert forall|a: nat| holds(longer, a) implies #[trigger] by_address(longer)[a] == by_address(
        blocks,
    ).insert(block@.addr, block@.size)[a] by {}
}

/// Moving the last block into the place of block `i` takes the entry of
/// block `i` from the map and leaves the others.
proof fn lemma_by_address_swap_remove(blocks: Seq<MemoryBlock>, i: int)
    requires
        distinct(blocks),
        0 <= i < blocks.len(),
    ensures
        distinct(blocks.update(i, blocks.last()).drop_last()),
        by_address(blocks.update(i, blocks.last()).drop_last()) == by_address(blocks).remove(
            blocks[i]@.addr,
        ),
{
    let rest = blocks.update(i, blocks.last()).drop_last();
    let last = blocks.len() - 1;
    let gone = blocks[i]@.addr;
    // Where entry `k` of `rest` stood in `blocks`.
    let origin = |k: int| if k == i { last } else { k };
    assert forall|k: int| 0 <= k < rest.len() implies #[trigger] rest[k] == blocks[origin(k)] by {}
    assert forall|k: int, l: int| 0 <= k < l < rest.len() implies (#[trigger] rest[k])@.addr != (
    #[trigger] rest[l])@.addr by {}
    assert forall|a: nat| holds(rest, a) <==> (a != gone && holds(blocks, a)) by {
        if a != gone && holds(blocks, a) {
            let k = position(blocks, a);
            if k == last {
                assert(rest[i]@.addr == a);
            } else {
                assert(rest[k]@.addr == a);
            }
        }
    }
    assert forall|a: nat| holds(rest, a) implies #[trigger] by_address(rest)[a] == by_address(
        blocks,
    )[a] by {}
}

/// Blocks with distinct addresses give a map with one entry each.
proof fn lemma_by_address_len(blocks: Seq<MemoryBlock>)
    requires
        distinct(blocks),
    ensures
        by_address(blocks).dom().finite(),
        by_address(blocks).len() == blocks.len(),
    decreases blocks.len(),
{
    if blocks.len() == 0 {
        assert(by_address(blocks) =~= Map::empty());
    } else {
        let front = blocks.drop_last();
        let block = blocks.last();
        assert(distinct(front)) by {
            assert forall|i: int, j: int| 0 <= i < j < front.len() implies (
            #[trigger] front[i])@.addr != (#[trigger] front[j])@.addr by {}
        }
        assert(!holds(front, block@.addr));
        lemma_by_address_len(front);
        lemma_by_address_push(front, block);
        assert(front.push(block) =~= blocks);
    }
}

/// A pool of memory regions under one budget.
///
/// The pool owns every region it has made, whether a caller holds it or
/// not, and gives none back to the system before the pool itself is
/// dropped. The budget counts the bytes of the regions made so far: it goes
/// down when a fresh region is made and is not restored when a region
/// comes back, since that region stays with the pool for reuse.
///
/// A pool is not synchronised: threads that share one must take turns.
pub struct MemoryPool {
    free_list: VecDeque<MemoryBlock>,
    allocated_list: Vec<MemoryBlock>,
    pool_size: usize,
}

impl View for MemoryPool {
    type V = PoolState;

    closed spec fn view(&self) -> PoolState {
        PoolState {
            free: regions(self.free_list@),
            active: by_address(self.allocated_list@),
            budget: self.pool_size as nat,
        }
    }
}

impl MemoryPool {
    /// Every block that the pool holds is well formed.
    pub closed spec fn blocks_wf(&self) -> bool {
        &&& forall|i: int| 0 <= i < self.free_list@.len() ==> (#[trigger] self.free_list@[i]).wf()
        &&& forall|i: int|
            0 <= i < self.allocated_list@.len() ==> (#[trigger] self.allocated_list@[i]).wf()
    }

    /// No two of the blocks that the pool holds as active start at the same
    /// address.
    pub closed spec fn no_double_grant(&self) -> bool {
        distinct(self.allocated_list@)
    }

    /// A pool is well formed when its blocks are, no active address is held
    /// twice, and its state satisfies the invariant of the model.
    pub open spec fn wf(&self) -> bool {
        self.blocks_wf() && self.no_double_grant() && self@.inv()
    }

    /// The number of blocks that the pool holds as active.
    pub closed spec fn active_blocks(&self) -> nat {
        self.allocated_list@.len()
    }

    /// Since no address is held twice, the pool holds as many active blocks
    /// as there are active addresses.
    pub proof fn lemma_active_addresses_distinct(&self)
        requires
            self.wf(),
        ensures
            self.active_blocks() == self@.active.len(),
    {
        lemma_by_address_len(self.allocated_list@);
    }

    /// Makes an empty pool that may spend `pool_size` bytes on fresh
    /// regions.
    pub fn new(pool_size: usize) -> (pool: Self)
        ensures
            pool.wf(),
            pool@ == PoolState::empty(pool_size as nat),
    {
        let pool = MemoryPool {
            free_list: VecDeque::new(),
            allocated_list: Vec::new(),
            pool_size,
        };
        proof {
            assert(pool@.free =~= Seq::empty());
            assert(pool@.active =~= Map::empty());
            lemma_empty_inv(pool_size as nat);
        }
        pool
    }

    /// Grants a region of at least `size` bytes.
    ///
    /// The oldest free region that is large enough is reused, whole and at
    /// no cost to the budget. Where none is large enough and the budget
    /// covers `size`, a fresh region of exactly `size` bytes is made and
    /// charged to the budget. Where neither is the case the pool is
    /// exhausted: the result is `None` and nothing changes.
    ///
    /// A fresh region is taken in through [`MemoryPool::adopt`], which
    /// refuses a region at an address that the pool already tracks. No
    /// allocator hands out such a region; should one do so, the result is
    /// `None` and nothing changes.
    pub fn allocate(&mut self, size: usize) -> (result: Option<Handle>)
        requires
            old(self).wf(),
            size > 0,
            size <= isize::MAX - (ALIGNMENT - 1) || old(self)@.budget < size,
        ensures
            final(self).wf(),
            first_fit(old(self)@.free, size as nat) matches Some(i) ==> {
                &&& result matches Some(handle)
                &&& handle@ == old(self)@.free[i].addr
                &&& final(self)@ == old(self)@.reuse(i)
            },
            old(self)@.exhausted(size as nat) ==> result is None && final(self)@ == old(self)@,
            first_fit(old(self)@.free, size as nat) is None && old(self)@.budget >= size ==> {
                match result {
                    Some(handle) => {
                        &&& !old(self)@.tracks(handle@)
                        &&& final(self)@ == old(self)@.grow(
                            (Region { addr: handle@, size: size as nat }),
                        )
                    },
                    None => final(self)@ == old(self)@,
                }
            },
            result matches Some(handle) ==> {
                &&& !old(self)@.active.contains_key(handle@)
                &&& final(self)@.active.contains_key(handle@)
                &&& final(self)@.active[handle@] >= size
                &&& handle@ != 0
                &&& handle@ % (ALIGNMENT as nat) == 0
            },
            result is None ==> first_fit(old(self)@.free, size as nat) is None,
            final(self)@.budget <= old(self)@.budget,
            final(self)@.budget != old(self)@.budget ==> {
                &&& first_fit(old(self)@.free, size as nat) is None
                &&& final(self)@.budget + size == old(self)@.budget
            },
    {
        match self.find_fit(size) {
            Some(i) => {
                proof {
                    lemma_first_fit(self@.free, size as nat);
                    lemma_reuse_inv(self@, i as int);
                    lemma_by_address_push(self.allocated_list@, self.free_list@[i as int]);
                    assert(regions(self.free_list@.remove(i as int)) =~= regions(
                        self.free_list@,
                    ).remove(i as int));
                }
                let block = self.free_list.remove(i).unwrap();
                let handle = block.handle();
                self.allocated_list.push(block);
                Some(handle)
            },
            None => {
                if self.pool_size >= size {
                    let block = MemoryBlock::new(size);
                    self.adopt(block)
                } else {
                    None
                }
            },
        }
    }

    /// Takes a block made outside the pool in as a fresh active region and
    /// charges its size to the budget.
    ///
    /// The block is refused, and dropped, when the budget does not cover it
    /// or when the pool already tracks a region at its address; the pool is
    /// then left as it was.
    pub fn adopt(&mut self, block: MemoryBlock) -> (result: Option<Handle>)
        requires
            old(self).wf(),
            block.wf(),
        ensures
            final(self).wf(),
            match result {
                Some(handle) => {
                    &&& block@.size <= old(self)@.budget
                    &&& !old(self)@.tracks(block@.addr)
                    &&& handle@ == block@.addr
                    &&& final(self)@ == old(self)@.grow(block@)
                },
                None => {
                    &&& block@.size > old(self)@.budget || old(self)@.tracks(block@.addr)
                    &&& final(self)@ == old(self)@
                },
            },
            final(self)@.budget <= old(self)@.budget,
    {
        let handle = block.handle();
        let size: usize = block.size();
        if size > self.pool_size || self.is_active(handle) || self.is_free(handle) {
            return None;
        }
        proof {
            lemma_by_address_push(self.allocated_list@, block);
            lemma_grow_inv(self@, block@);
        }
        self.allocated_list.push(block);
        self.pool_size = self.pool_size - size;
        Some(handle)
    }

    /// Takes back the region that `handle` names.
    ///
    /// The region goes to the tail of the free queue, to be reused after
    /// the regions released before it; its memory stays with the pool and
    /// the budget is not restored. Where no active region starts at that
    /// address (the handle was never issued by this pool, or its region was
    /// released already) nothing changes, and the result says so.
    pub fn deallocate(&mut self, handle: Handle) -> (released: bool)
        requires
            old(self).wf(),
        ensures
            final(self).wf(),
            released == old(self)@.active.contains_key(handle@),
            final(self)@ == old(self)@.release(handle@),
            final(self)@.budget == old(self)@.budget,
    {
        match self.find_active(handle) {
            Some(index) => {
                proof {
                    lemma_position(self.allocated_list@, index as int);
                    lemma_by_address_swap_remove(self.allocated_list@, index as int);
                    lemma_release_inv(self@, handle@);
                    assert(regions(self.free_list@.push(self.allocated_list@[index as int]))
                        =~= regions(self.free_list@).push(self.allocated_list@[index as int]@));
                }
                let block = self.allocated_list.swap_remove(index);
                self.free_list.push_back(block);
                true
            },
            None => false,
        }
    }

    /// The bytes that fresh regions may still take.
    pub fn remaining_budget(&self) -> (budget: usize)
        ensures
            budget == self@.budget,
    {
        self.pool_size
    }

    /// The number of regions that wait for reuse.
    pub fn free_count(&self) -> (count: usize)
        ensures
            count == self@.free.len(),
    {
        self.free_list.len()
    }

    /// The number of regions that callers hold. Since no address is held
    /// twice, that is the number of addresses in use.
    pub fn active_count(&self) -> (count: usize)
        requires
            self.wf(),
        ensures
            count == self.active_blocks(),
            count == self@.active.len(),
    {
        proof {
            self.lemma_active_addresses_distinct();
        }
        self.allocated_list.len()
    }

    /// Whether a caller holds the region that `handle` names.
    pub fn is_active(&self, handle: Handle) -> (active: bool)
        ensures
            active == self@.active.contains_key(handle@),
    {
        self.find_active(handle).is_some()
    }

    /// Whether the region that `handle` names waits for reuse.
    pub fn is_free(&self, handle: Handle) -> (free: bool)
        ensures
            free == self@.in_free(handle@),
    {
        self.find_free(handle).is_some()
    }

    /// The size of the active region that `handle` names, which may exceed
    /// what the caller asked for when the region was reused.
    pub fn region_size(&self, handle: Handle) -> (size: Option<usize>)
        requires
            self.wf(),
        ensures
            match size {
                Some(n) => self@.active.contains_key(handle@) && n == self@.active[handle@],
                None => !self@.active.contains_key(handle@),
            },
    {
        match self.find_active(handle) {
            Some(index) => {
                proof {
                    lemma_position(self.allocated_list@, index as int);
                }
                Some(self.allocated_list[index].size())
            },
            None => None,
        }
    }

    /// Index of the oldest free block that holds at least `size` bytes.
    fn find_fit(&self, size: usize) -> (found: Option<usize>)
        ensures
            match found {
                Some(i) => first_fit(self@.free, size as nat) == Some(i as int),
                None => first_fit(self@.free, size as nat) is None,
            },
    {
        let ghost free = self@.free;
        let mut i: usize = 0;
        while i < self.free_list.len()
            invariant
                i <= self.free_list@.len(),
                free == regions(self.free_list@),
                forall|j: int| 0 <= j < i ==> !fits(free, size as nat, j),
            decreases self.free_list@.len() - i,
        {
            if self.free_list[i].size() >= size {
                proof {
                    lemma_first_fit(free, size as nat);
                    assert(fits(free, size as nat, i as int));
                }
                return Some(i);
            }
            i += 1;
        }
        proof {
            lemma_first_fit(free, size as nat);
        }
        None
    }

    /// Index of the active block that starts at the address `handle` names.
    fn find_active(&self, handle: Handle) -> (found: Option<usize>)
        ensures
            match found {
                Some(i) => i < self.allocated_list@.len() && self.allocated_list@[i as int]@.addr
                    == handle@,
                None => !holds(self.allocated_list@, handle@),
            },
    {
        let mut i: usize = 0;
        while i < self.allocated_list.len()
            invariant
                i <= self.allocated_list@.len(),
                forall|j: int| 0 <= j < i ==> (#[trigger] self.allocated_list@[j])@.addr != handle@,
            decreases self.allocated_list@.len() - i,
        {
            if self.allocated_list[i].handle().address() == handle.address() {
                return Some(i);
            }
            i += 1;
        }
        None
    }

    /// Index of the free block that starts at the address `handle` names.
    fn find_free(&self, handle: Handle) -> (found: Option<usize>)
        ensures
            match found {
                Some(i) => i < self@.free.len() && self@.free[i as int].addr == handle@,
                None => !self@.in_free(handle@),
            },
    {
        let ghost free = self@.free;
        let mut i: usize = 0;
        while i < self.free_list.len()
            invariant
                i <= self.free_list@.len(),
                free == regions(self.free_list@),
                forall|j: int| 0 <= j < i ==> (#[trigger] free[j]).addr != handle@,
            decreases self.free_list@.len() - i,
        {
            if self.free_list[i].handle().address() == handle.address() {
                return Some(i);
            }
            i += 1;
        }
        None
    }
}

} // verus!
