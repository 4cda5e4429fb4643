//! The allocator tiers: a linear allocator, a pool of fixed-size slots, and
//! the arena that routes requests between them.

use vstd::prelude::*;
use vstd::arithmetic::div_mod::lemma_fundamental_div_mod;
use vstd::arithmetic::div_mod::lemma_mod_multiples_basic;
use vstd::set_lib::lemma_int_range;
use vstd::set_lib::lemma_len_subset;
use vstd::set_lib::set_int_range;
use vstd::arithmetic::power2::is_pow2;
use crate::memory::align_up;
use crate::memory::lemma_align_up_is_least;
use crate::memory::lemma_next_pow2_is_least;
use crate::memory::next_pow2;
use crate::memory::next_power_of_two;
use crate::memory::request_fits;
use crate::memory::round_up;
use crate::memory::Block;

verus! {

/// What a linear allocator is: the address range it owns and its cursor.
pub struct BumpState {
    pub start: int,
    pub cursor: int,
    pub end: int,
}

impl BumpState {
    /// What holds of every linear allocator: the range is not empty, starts at
    /// a multiple of 8 above the null address and ends at an address, and the
    /// cursor lies within it.
    pub open spec fn inv(self) -> bool {
        &&& 0 < self.start <= self.cursor <= self.end <= usize::MAX
        &&& self.start < self.end
        &&& self.start % 8 == 0
    }

    /// Bytes between the start of the range and the cursor.
    pub open spec fn used(self) -> int {
        self.cursor - self.start
    }

    /// Bytes in the whole range.
    pub open spec fn capacity(self) -> int {
        self.end - self.start
    }

    /// Address that the next request aligned to `align` would get.
    pub open spec fn placement(self, align: int) -> int {
        align_up(self.cursor, align)
    }

    /// Whether `size` bytes aligned to `align` still lie within the range.
    pub open spec fn fits(self, size: int, align: int) -> bool {
        align > 0 && self.placement(align) + size <= self.end
    }

    /// The state after `size` bytes aligned to `align` were handed out.
    pub open spec fn after_allocate(self, size: int, align: int) -> BumpState {
        BumpState { start: self.start, cursor: self.placement(align) + size, end: self.end }
    }

    /// The state after a reset.
    pub open spec fn after_reset(self) -> BumpState {
        BumpState { start: self.start, cursor: self.start, end: self.end }
    }
}

/// A linear allocator: it hands out successive aligned ranges of one block by
/// moving a cursor forward. Ranges are never freed one by one; a reset frees
/// them all.
pub struct BumpAllocator {
    block: Block,
    current: usize,
}

impl View for BumpAllocator {
    type V = BumpState;

    closed spec fn view(&self) -> BumpState {
        BumpState {
            start: self.block.start(),
            cursor: self.current as int,
            end: self.block.start() + self.block.size(),
        }
    }
}

impl BumpAllocator {
    /// The cursor lies within the block, which starts at a multiple of 8 above
    /// the null address.
    pub closed spec fn wf(&self) -> bool {
        &&& self.block.wf()
        &&& self.block.alignment() == 8
        &&& self.block.start() <= self.current <= self.block.start() + self.block.size()
    }

    /// What `wf` says, over the allocator's view.
    pub proof fn lemma_wf(&self)
        requires
            self.wf(),
        ensures
            self@.inv(),
    {
        self.block.lemma_wf();
    }

    /// A linear allocator over `block`, with nothing handed out.
    pub fn from_block(block: Block) -> (a: Self)
        requires
            block.wf(),
            block.alignment() == 8,
        ensures
            a.wf(),
            a@.start == block.start(),
            a@.cursor == block.start(),
            a@.end == block.start() + block.size(),
    {
        proof {
            block.lemma_wf();
        }
        let current: usize = block.address();
        BumpAllocator { block, current }
    }

    /// A linear allocator over a fresh block of `size` bytes aligned to 8.
    pub fn new(size: usize) -> (r: Result<Self, &'static str>)
        ensures
            size == 0 ==> r is Err && r->Err_0@ == "Allocator size must be greater than 0"@,
            size > 0 && !request_fits(size as int, 8) ==> r is Err && r->Err_0@
                == "Invalid layout"@,
            request_fits(size as int, 8) && r is Err ==> r->Err_0@ == "Failed to allocate memory"@,
            r is Ok ==> {
                &&& r->Ok_0.wf()
                &&& r->Ok_0@.used() == 0
                &&& r->Ok_0@.capacity() == size
            },
    {
        if size == 0 {
            return Err("Allocator size must be greater than 0");
        }
        if size > (isize::MAX as usize) - 7 {
            return Err("Invalid layout");
        }
        match Block::reserve(size, 8) {
            Some(block) => Ok(BumpAllocator::from_block(block)),
            None => Err("Failed to allocate memory"),
        }
    }

    /// Hands out `size` bytes at the next multiple of `align`, if they lie
    /// within the block; otherwise nothing changes.
    pub fn allocate(&mut self, size: usize, align: usize) -> (r: Option<usize>)
        requires
            old(self).wf(),
        ensures
            final(self).wf(),
            old(self)@.fits(size as int, align as int) ==> {
                &&& r == Some(old(self)@.placement(align as int) as usize)
                &&& final(self)@ == old(self)@.after_allocate(size as int, align as int)
            },
            !old(self)@.fits(size as int, align as int) ==> r is None && final(self)@ == old(self)@,
            r matches Some(addr) ==> {
                &&& addr as int % align as int == 0
                &&& old(self)@.cursor <= addr
                &&& final(self)@.start <= addr
                &&& addr + size <= final(self)@.end
                &&& final(self)@.used() == old(self)@.used() + (addr - old(self)@.cursor) + size
            },
    {
        proof {
            self.block.lemma_wf();
            if align > 0 {
                lemma_align_up_is_least(self.current as int, align as int);
            }
        }
        let end: usize = self.block.address() + self.block.len();
        match round_up(self.current, align) {
            None => None,
            Some(aligned) => {
                if aligned > end || size > end - aligned {
                    None
                } else {
                    self.current = aligned + size;
                    Some(aligned)
                }
            },
        }
    }

    /// Rewinds the cursor to the start of the block: everything handed out is
    /// free again.
    pub fn reset(&mut self)
        requires
            old(self).wf(),
        ensures
            final(self).wf(),
            final(self)@ == old(self)@.after_reset(),
            final(self)@.used() == 0,
    {
        proof {
            self.block.lemma_wf();
        }
        self.current = self.block.address();
    }

    /// Bytes handed out since the last reset, padding included.
    pub fn used(&self) -> (n: usize)
        requires
            self.wf(),
        ensures
            n == self@.used(),
    {
        self.current - self.block.address()
    }

    /// Bytes in the whole block.
    pub fn capacity(&self) -> (n: usize)
        ensures
            n == self@.capacity(),
    {
        self.block.len()
    }
}

/// What a pool is: the address range it owns, cut into slots of one size, and
/// the addresses that are free, the next one to hand out last.
pub struct PoolState {
    pub start: int,
    pub block_size: int,
    pub slots: int,
    pub free: Seq<usize>,
}

impl PoolState {
    /// What holds of every pool: it has slots, their size is a power of two,
    /// the range starts at a multiple of it above the null address and ends
    /// at an address, and every free address is the address of a slot.
    pub open spec fn inv(self) -> bool {
        &&& self.start > 0
        &&& self.slots > 0
        &&& self.block_size > 0
        &&& is_pow2(self.block_size)
        &&& self.start % self.block_size == 0
        &&& self.start + self.size() <= usize::MAX
        &&& forall|j: int| 0 <= j < self.free.len() ==> self.owns(#[trigger] self.free[j] as int)
    }

    /// Bytes in the whole range.
    pub open spec fn size(self) -> int {
        self.block_size * self.slots
    }

    /// Address of slot `i`.
    pub open spec fn slot(self, i: int) -> int {
        self.start + i * self.block_size
    }

    /// Whether `addr` is the address of one of the pool's slots: it lies in
    /// the range, a whole number of slots above its start.
    pub open spec fn owns(self, addr: int) -> bool {
        &&& self.start <= addr < self.start + self.size()
        &&& (addr - self.start) % self.block_size == 0
    }

    /// Number of slots outside the free list.
    pub open spec fn allocated(self) -> int {
        self.slots - self.free.len()
    }

    /// Whether the free list holds every slot once, in address order.
    pub open spec fn fresh(self) -> bool {
        &&& self.free.len() == self.slots
        &&& forall|i: int| 0 <= i < self.slots ==> #[trigger] self.free[i] == self.slot(i)
    }

    /// The state after a request: the last free address, if there is one, has
    /// left the free list.
    pub open spec fn after_allocate(self) -> PoolState {
        if self.free.len() > 0 {
            PoolState { free: self.free.drop_last(), ..self }
        } else {
            self
        }
    }

    /// The state after `addr` was given back: it joins the free list if it is
    /// the address of a slot, and is ignored otherwise.
    pub open spec fn after_deallocate(self, addr: usize) -> PoolState {
        if self.owns(addr as int) {
            PoolState { free: self.free.push(addr), ..self }
        } else {
            self
        }
    }
}

/// Whether a pool of `capacity` slots of at least `block_size` bytes may be
/// asked for: the slot size rounded up to a power of two, times the number of
/// slots, is a request that fits.
pub open spec fn pool_fits(block_size: int, capacity: int) -> bool {
    &&& block_size > 0
    &&& capacity > 0
    &&& request_fits(next_pow2(block_size) * capacity, next_pow2(block_size))
}

/// A pool of slots of one size, with a list of the free ones.
pub struct MemoryPool {
    block: Block,
    block_size: usize,
    blocks: Vec<usize>,
    free_list: Vec<usize>,
    pool_size: usize,
}

impl View for MemoryPool {
    type V = PoolState;

    closed spec fn view(&self) -> PoolState {
        PoolState {
            start: self.block.start(),
            block_size: self.block_size as int,
            slots: self.blocks@.len() as int,
            free: self.free_list@,
        }
    }
}

impl MemoryPool {
    /// The block is cut into the listed slots, whose size is a power of two
    /// to which the block is aligned, and every free address is a slot's.
    pub closed spec fn wf(&self) -> bool {
        &&& self.block.wf()
        &&& self.block.alignment() == self.block_size
        &&& self.block.size() == self.pool_size
        &&& is_pow2(self.block_size as int)
        &&& self.block_size > 0
        &&& self.blocks@.len() > 0
        &&& self.pool_size == self.block_size * self.blocks@.len()
        &&& forall|i: int|
            0 <= i < self.blocks@.len() ==> #[trigger] self.blocks@[i] == self@.slot(i)
        &&& forall|j: int| 0 <= j < self.free_list@.len() ==> self@.owns(#[trigger] self.free_list@[j] as int)
    }

    /// What `wf` says, over the pool's view.
    pub proof fn lemma_wf(&self)
        requires
            self.wf(),
        ensures
            self@.inv(),
    {
        self.block.lemma_wf();
    }

    /// A pool of `capacity` slots of `block_size` bytes over `block`, with
    /// every slot free.
    pub fn from_block(block: Block, block_size: usize, capacity: usize) -> (pool: Self)
        requires
            block.wf(),
            is_pow2(block_size as int),
            block.alignment() == block_size,
            block.size() == block_size * capacity,
        ensures
            pool.wf(),
            pool@.start == block.start(),
            pool@.block_size == block_size,
            pool@.slots == capacity,
            pool@.fresh(),
    {
        proof {
            block.lemma_wf();
            assert(capacity > 0 && block_size > 0) by (nonlinear_arith)
                requires
                    block_size * capacity > 0,
            ;
        }
        let start: usize = block.address();
        let pool_size: usize = block.len();
        let ghost model = PoolState {
            start: start as int,
            block_size: block_size as int,
            slots: capacity as int,
            free: Seq::empty(),
        };
        let mut blocks: Vec<usize> = Vec::new();
        let mut free_list: Vec<usize> = Vec::new();
        let mut addr: usize = start;
        let mut i: usize = 0;
        while i < capacity
            invariant
                i <= capacity,
                block_size > 0,
                pool_size == block_size * capacity,
                start + pool_size <= usize::MAX,
                model.start == start,
                model.block_size == block_size,
                model.slots == capacity,
                addr == start + i * block_size,
                blocks@.len() == i,
                free_list@ == blocks@,
                forall|k: int| 0 <= k < i ==> #[trigger] blocks@[k] == model.slot(k),
                forall|k: int| 0 <= k < i ==> model.owns(#[trigger] blocks@[k] as int),
            decreases capacity - i,
        {
            proof {
                let bs = block_size as int;
                assert(i * bs + bs <= bs * capacity && (i + 1) * bs == i * bs + bs) by (nonlinear_arith)
                    requires
                        0 <= i < capacity,
                        bs > 0,
                ;
                lemma_mod_multiples_basic(i as int, bs);
                assert(model.size() == bs * capacity);
                assert(addr - start == i * bs);
                assert(model.owns(addr as int));
            }
            blocks.push(addr);
            free_list.push(addr);
            i = i + 1;
            addr = addr + block_size;
        }
        MemoryPool { block, block_size, blocks, free_list, pool_size }
    }

    /// A pool of `capacity` slots over a fresh block; the slot size is
    /// `block_size` rounded up to the next power of two, and the block is
    /// aligned to it.
    pub fn new(block_size: usize, capacity: usize) -> (r: Result<Self, &'static str>)
        ensures
            block_size == 0 || capacity == 0 ==> r is Err && r->Err_0@
                == "Block size and capacity must be greater than 0"@,
            block_size > 0 && capacity > 0 && !pool_fits(block_size as int, capacity as int) ==> r is Err
                && r->Err_0@ == "Invalid layout"@,
            pool_fits(block_size as int, capacity as int) && r is Err ==> r->Err_0@
                == "Failed to allocate memory pool"@,
            r is Ok ==> {
                &&& r->Ok_0.wf()
                &&& r->Ok_0@.block_size == next_pow2(block_size as int)
                &&& r->Ok_0@.slots == capacity
                &&& r->Ok_0@.fresh()
            },
    {
        if block_size == 0 || capacity == 0 {
            return Err("Block size and capacity must be greater than 0");
        }
        proof {
            lemma_next_pow2_is_least(block_size as int);
        }
        let limit: usize = isize::MAX as usize;
        let rounded: usize = match next_power_of_two(block_size) {
            Some(p) => p,
            None => {
                proof {
                    assert(next_pow2(block_size as int) * capacity >= next_pow2(block_size as int))
                        by (nonlinear_arith)
                        requires
                            capacity >= 1,
                            next_pow2(block_size as int) >= 1,
                    ;
                }
                return Err("Invalid layout");
            },
        };
        let pool_size: usize = match rounded.checked_mul(capacity) {
            Some(n) => n,
            None => {
                return Err("Invalid layout");
            },
        };
        if rounded - 1 > limit || pool_size > limit - (rounded - 1) {
            return Err("Invalid layout");
        }
        proof {
            assert(rounded * capacity > 0) by (nonlinear_arith)
                requires
                    rounded >= 1,
                    capacity >= 1,
            ;
        }
        match Block::reserve(pool_size, rounded) {
            Some(block) => Ok(MemoryPool::from_block(block, rounded, capacity)),
            None => Err("Failed to allocate memory pool"),
        }
    }

    /// Hands out the last address of the free list, if there is one.
    pub fn allocate(&mut self) -> (r: Option<usize>)
        requires
            old(self).wf(),
        ensures
            final(self).wf(),
            final(self)@ == old(self)@.after_allocate(),
            old(self)@.free.len() > 0 ==> r == Some(old(self)@.free.last()) && old(self)@.owns(
                r.unwrap() as int,
            ),
            old(self)@.free.len() == 0 ==> r is None,
    {
        let r = self.free_list.pop();
        proof {
            if old(self)@.free.len() > 0 {
                assert(old(self).free_list@[old(self).free_list@.len() - 1] == r.unwrap());
            }
        }
        r
    }

    /// Takes `addr` back if it is the address of one of the pool's slots: it
    /// joins the free list. Any other address is ignored.
    pub fn deallocate(&mut self, addr: usize)
        requires
            old(self).wf(),
        ensures
            final(self).wf(),
            final(self)@ == old(self)@.after_deallocate(addr),
            !old(self)@.owns(addr as int) ==> final(self)@.free.len() == old(self)@.free.len(),
    {
        proof {
            self.block.lemma_wf();
        }
        let pool_start: usize = self.blocks[0];
        let pool_end: usize = pool_start + self.pool_size;
        if addr >= pool_start && addr < pool_end {
            if (addr - pool_start) % self.block_size == 0 {
                self.free_list.push(addr);
            }
        }
    }

    /// Bytes in one slot.
    pub fn block_size(&self) -> (n: usize)
        ensures
            n == self@.block_size,
    {
        self.block_size
    }

    /// Number of free slots.
    pub fn free_count(&self) -> (n: usize)
        ensures
            n == self@.free.len(),
    {
        self.free_list.len()
    }

    /// Number of slots that are handed out, for a pool whose free list holds
    /// no more addresses than the pool has slots.
    pub fn allocated_count(&self) -> (n: usize)
        requires
            self@.free.len() <= self@.slots,
        ensures
            n == self@.allocated(),
            n + self@.free.len() == self@.slots,
    {
        self.blocks.len() - self.free_list.len()
    }
}

/// Bytes handed out by all of `allocators` together.
pub open spec fn sum_used(allocators: Seq<BumpState>) -> int
    decreases allocators.len(),
{
    if allocators.len() == 0 {
        0
    } else {
        sum_used(allocators.drop_last()) + allocators.last().used()
    }
}

/// Bytes in the blocks of all of `allocators` together.
pub open spec fn sum_capacity(allocators: Seq<BumpState>) -> int
    decreases allocators.len(),
{
    if allocators.len() == 0 {
        0
    } else {
        sum_capacity(allocators.drop_last()) + allocators.last().capacity()
    }
}

/// Whether a pool serves a request of `size` bytes aligned to `align`: its
/// slots are large enough, and their size is a multiple of `align`.
pub open spec fn serves(pool: PoolState, size: int, align: int) -> bool {
    pool.block_size >= size && align > 0 && pool.block_size % align == 0
}

/// Index of the first pool from `from` on that serves the request, or the
/// number of pools if none does.
pub open spec fn first_serving(pools: Seq<PoolState>, size: int, align: int, from: int) -> int
    decreases pools.len() - from,
{
    if from < 0 || from >= pools.len() {
        pools.len() as int
    } else if serves(pools[from], size, align) {
        from
    } else {
        first_serving(pools, size, align, from + 1)
    }
}

/// Index of the first pool from `from` on whose slots have exactly `size`
/// bytes, or the number of pools if none has.
pub open spec fn first_of_size(pools: Seq<PoolState>, size: int, from: int) -> int
    decreases pools.len() - from,
{
    if from < 0 || from >= pools.len() {
        pools.len() as int
    } else if pools[from].block_size == size {
        from
    } else {
        first_of_size(pools, size, from + 1)
    }
}

/// Whether `pools` are what a new arena has: each of them fresh, with 256
/// slots of 8, 16, 32, 64 or 128 bytes, in the order of their slot sizes.
pub open spec fn standard_pools(pools: Seq<PoolState>) -> bool {
    &&& forall|i: int|
        0 <= i < pools.len() ==> {
            let b = (#[trigger] pools[i]).block_size;
            &&& pools[i].fresh()
            &&& pools[i].slots == 256
            &&& (b == 8 || b == 16 || b == 32 || b == 64 || b == 128)
        }
    &&& forall|i: int, j: int|
        0 <= i < j < pools.len() ==> (#[trigger] pools[i]).block_size < (#[trigger] pools[j]).block_size
}

/// What an arena is: its linear allocators in the order they were made, the
/// index of the one that is being filled, the size of a new one, and its
/// pools in the order they were made.
pub struct ArenaState {
    pub allocators: Seq<BumpState>,
    pub current: int,
    pub allocator_size: int,
    pub pools: Seq<PoolState>,
}

impl ArenaState {
    /// What holds of every arena: the current index names one of its linear
    /// allocators, what holds of every linear allocator and pool holds of
    /// each of its own, and the blocks of the linear allocators together have
    /// a size that fits in a `usize`.
    pub open spec fn inv(self) -> bool {
        &&& 0 <= self.current < self.allocators.len()
        &&& self.allocator_size > 0
        &&& forall|i: int| 0 <= i < self.allocators.len() ==> (#[trigger] self.allocators[i]).inv()
        &&& forall|i: int| 0 <= i < self.pools.len() ==> (#[trigger] self.pools[i]).inv()
        &&& 0 <= self.total_used() <= self.total_capacity() <= usize::MAX
    }

    /// Bytes handed out by the linear allocators; the pools are not counted.
    pub open spec fn total_used(self) -> int {
        sum_used(self.allocators)
    }

    /// Bytes in the blocks of the linear allocators; the pools are not
    /// counted.
    pub open spec fn total_capacity(self) -> int {
        sum_capacity(self.allocators)
    }

    /// Index of the pool that a request is routed to, or the number of pools.
    pub open spec fn route(self, size: int, align: int) -> int {
        first_serving(self.pools, size, align, 0)
    }

    /// Index of the pool that takes back a range of `size` bytes, or the
    /// number of pools.
    pub open spec fn home(self, size: int) -> int {
        first_of_size(self.pools, size, 0)
    }

    /// Size of the linear allocator that is made when a request of `size`
    /// bytes finds the current one exhausted.
    pub open spec fn growth(self, size: int) -> int {
        if self.allocator_size >= 2 * size {
            self.allocator_size
        } else {
            2 * size
        }
    }

    /// Whether a request is served from a pool: it is routed to one, and that
    /// one has a free slot.
    pub open spec fn pool_hit(self, size: int, align: int) -> bool {
        let i = self.route(size, align);
        i < self.pools.len() && self.pools[i].free.len() > 0
    }

    /// Whether the current linear allocator can serve a request.
    pub open spec fn bump_hit(self, size: int, align: int) -> bool {
        self.allocators[self.current].fits(size, align)
    }

    /// Whether a new linear allocator for a request of `size` bytes may be
    /// asked for.
    pub open spec fn may_grow(self, size: int) -> bool {
        &&& 2 * size <= usize::MAX
        &&& request_fits(self.growth(size), 8)
        &&& self.total_capacity() + self.growth(size) <= usize::MAX
    }

    /// Whether the arena takes `fresh` as its new current linear allocator
    /// for a request: the request can be served from it, and the blocks
    /// together still have a size that fits in a `usize`.
    pub open spec fn takes(self, fresh: BumpState, size: int, align: int) -> bool {
        fresh.fits(size, align) && self.total_capacity() + fresh.capacity() <= usize::MAX
    }

    /// Whether `r` and `after` are an answer to a request of `size` bytes
    /// aligned to `align`. A request that a pool serves gets that pool's last
    /// free address. Of the others, one that the current linear allocator can
    /// serve is placed there. For the rest a new linear allocator of
    /// `growth(size)` bytes is appended and made current, with the request
    /// placed at its first multiple of `align`, or the request fails and
    /// nothing changes; it fails where no new allocator may be asked for.
    pub open spec fn answers(self, size: int, align: int, r: Option<usize>, after: ArenaState) -> bool {
        if self.pool_hit(size, align) {
            let i = self.route(size, align);
            &&& r == Some(self.pools[i].free.last())
            &&& after == self.with_pool(i, self.pools[i].after_allocate())
        } else if self.bump_hit(size, align) {
            let c = self.current;
            &&& r == Some(self.allocators[c].placement(align) as usize)
            &&& after == self.with_allocator(c, self.allocators[c].after_allocate(size, align))
        } else {
            &&& r is None ==> after == self
            &&& !self.may_grow(size) ==> r is None
            &&& r matches Some(addr) ==> {
                let fresh = after.allocators.last();
                &&& after == self.grown(fresh)
                &&& fresh.capacity() == self.growth(size)
                &&& fresh.start > 0
                &&& fresh.start % 8 == 0
                &&& align > 0
                &&& addr == align_up(fresh.start, align)
                &&& fresh.cursor == addr + size
                &&& fresh.cursor <= fresh.end
            }
        }
    }

    /// The state with pool `i` replaced.
    pub open spec fn with_pool(self, i: int, pool: PoolState) -> ArenaState {
        ArenaState { pools: self.pools.update(i, pool), ..self }
    }

    /// The state with linear allocator `i` replaced.
    pub open spec fn with_allocator(self, i: int, allocator: BumpState) -> ArenaState {
        ArenaState { allocators: self.allocators.update(i, allocator), ..self }
    }

    /// The state with `allocator` appended and made current.
    pub open spec fn grown(self, allocator: BumpState) -> ArenaState {
        ArenaState {
            allocators: self.allocators.push(allocator),
            current: self.allocators.len() as int,
            ..self
        }
    }

    /// The state after a reset: every linear allocator is rewound, the first
    /// is current, and the pools are as they were.
    pub open spec fn after_reset(self) -> ArenaState {
        ArenaState {
            allocators: self.allocators.map_values(|a: BumpState| a.after_reset()),
            current: 0,
            ..self
        }
    }
}

/// An arena: pools for small requests, and linear allocators, of which a new
/// one is made when the current one is exhausted.
pub struct Arena {
    allocators: Vec<BumpAllocator>,
    current_allocator: usize,
    allocator_size: usize,
    pools: Vec<MemoryPool>,
}

impl View for Arena {
    type V = ArenaState;

    closed spec fn view(&self) -> ArenaState {
        ArenaState {
            allocators: self.allocators@.map_values(|a: BumpAllocator| a@),
            current: self.current_allocator as int,
            allocator_size: self.allocator_size as int,
            pools: self.pools@.map_values(|p: MemoryPool| p@),
        }
    }
}

impl Arena {
    /// The current index names one of the linear allocators, each allocator
    /// and pool is well formed, and the blocks of the linear allocators
    /// together have a size that fits in a `usize`.
    pub closed spec fn wf(&self) -> bool {
        &&& self.allocators@.len() > 0
        &&& self.current_allocator < self.allocators@.len()
        &&& self.allocator_size > 0
        &&& forall|i: int| 0 <= i < self.allocators@.len() ==> (#[trigger] self.allocators@[i]).wf()
        &&& forall|i: int| 0 <= i < self.pools@.len() ==> (#[trigger] self.pools@[i]).wf()
        &&& sum_capacity(self@.allocators) <= usize::MAX
    }

    /// What `wf` says, over the arena's view.
    pub proof fn lemma_wf(&self)
        requires
            self.wf(),
        ensures
            self@.inv(),
    {
        assert forall|i: int| 0 <= i < self@.allocators.len() implies (#[trigger] self@.allocators[i]).inv() by {
            self.allocators@[i].lemma_wf();
        }
        assert forall|i: int| 0 <= i < self@.pools.len() implies (#[trigger] self@.pools[i]).inv() by {
            self.pools@[i].lemma_wf();
        }
        lemma_sums(self.allocators@, self.allocators@.len() as int);
        assert(self.allocators@.take(self.allocators@.len() as int) == self.allocators@);
        assert(self@.allocators.take(self.allocators@.len() as int) == self@.allocators);
    }

    /// An arena over a first linear allocator and the given pools. New linear
    /// allocators get the size of the first, or more where a request asks it.
    pub fn from_parts(first: BumpAllocator, pools: Vec<MemoryPool>) -> (arena: Self)
        requires
            first.wf(),
            forall|i: int| 0 <= i < pools@.len() ==> (#[trigger] pools@[i]).wf(),
        ensures
            arena.wf(),
            arena@.allocators == seq![first@],
            arena@.current == 0,
            arena@.allocator_size == first@.capacity(),
            arena@.pools == pools@.map_values(|p: MemoryPool| p@),
    {
        proof {
            first.lemma_wf();
        }
        let allocator_size: usize = first.capacity();
        let mut allocators: Vec<BumpAllocator> = Vec::new();
        allocators.push(first);
        let arena = Arena { allocators, current_allocator: 0, allocator_size, pools };
        proof {
            assert(arena@.allocators =~= seq![first@]);
            assert(arena@.allocators.drop_last() =~= Seq::<BumpState>::empty());
            assert(sum_capacity(Seq::<BumpState>::empty()) == 0);
            assert(sum_capacity(arena@.allocators) == first@.capacity());
        }
        arena
    }

    /// An arena whose first linear allocator has `allocator_size` bytes, with
    /// pools of 256 slots of 8, 16, 32, 64 and 128 bytes. A pool whose block
    /// cannot be reserved is left out.
    pub fn new(allocator_size: usize) -> (r: Result<Self, &'static str>)
        ensures
            allocator_size == 0 ==> r is Err && r->Err_0@ == "Allocator size must be greater than 0"@,
            allocator_size > 0 && !request_fits(allocator_size as int, 8) ==> r is Err && r->Err_0@
                == "Invalid layout"@,
            request_fits(allocator_size as int, 8) && r is Err ==> r->Err_0@
                == "Failed to allocate memory"@,
            r is Ok ==> {
                &&& r->Ok_0.wf()
                &&& r->Ok_0@.allocators.len() == 1
                &&& r->Ok_0@.allocators[0].used() == 0
                &&& r->Ok_0@.allocators[0].capacity() == allocator_size
                &&& r->Ok_0@.current == 0
                &&& r->Ok_0@.allocator_size == allocator_size
                &&& standard_pools(r->Ok_0@.pools)
            },
    {
        let first = match BumpAllocator::new(allocator_size) {
            Ok(first) => first,
            Err(e) => {
                return Err(e);
            },
        };
        let mut pools: Vec<MemoryPool> = Vec::new();
        let mut size: usize = 8;
        proof {
            reveal_with_fuel(is_pow2, 5);
        }
        while size <= 128
            invariant
                size == 8 || size == 16 || size == 32 || size == 64 || size == 128 || size == 256,
                is_pow2(size as int),
                forall|i: int| 0 <= i < pools@.len() ==> (#[trigger] pools@[i]).wf(),
                forall|i: int| 0 <= i < pools@.len() ==> (#[trigger] pools@[i])@.block_size < size,
                standard_pools(pools@.map_values(|p: MemoryPool| p@)),
            decreases 256 - size,
        {
            proof {
                lemma_next_pow2_is_least(size as int);
            }
            let ghost before = pools@.map_values(|p: MemoryPool| p@);
            match MemoryPool::new(size, 256) {
                Ok(pool) => {
                    pools.push(pool);
                    proof {
                        let after = pools@.map_values(|p: MemoryPool| p@);
                        assert(after =~= before.push(pool@));
                    }
                },
                Err(_) => {},
            }
            proof {
                reveal(is_pow2);
            }
            size = size * 2;
        }
        Ok(Arena::from_parts(first, pools))
    }

    /// Rewinds every linear allocator and makes the first one current. The
    /// pools are left as they are.
    pub fn reset(&mut self)
        requires
            old(self).wf(),
        ensures
            final(self).wf(),
            final(self)@ == old(self)@.after_reset(),
            final(self)@.total_used() == 0,
    {
        let mut i: usize = 0;
        while i < self.allocators.len()
            invariant
                i <= self.allocators@.len(),
                self.allocators@.len() == old(self).allocators@.len(),
                self.pools == old(self).pools,
                self.allocator_size == old(self).allocator_size,
                self.current_allocator == old(self).current_allocator,
                old(self).wf(),
                forall|k: int| 0 <= k < self.allocators@.len() ==> (#[trigger] self.allocators@[k]).wf(),
                forall|k: int|
                    0 <= k < i ==> (#[trigger] self.allocators@[k])@ == old(self).allocators@[k]@.after_reset(),
                forall|k: int|
                    i <= k < self.allocators@.len() ==> #[trigger] self.allocators@[k] == old(
                        self,
                    ).allocators@[k],
            decreases self.allocators@.len() - i,
        {
            self.allocators[i].reset();
            i = i + 1;
        }
        self.current_allocator = 0;
        proof {
            assert(self@.allocators =~= old(self)@.after_reset().allocators);
            assert(self@.pools =~= old(self)@.pools);
            lemma_reset_sums(old(self)@.allocators);
        }
    }

    /// Takes `fresh` as the arena's new current linear allocator if the
    /// request of `size` bytes aligned to `align` can be served from it and
    /// the blocks together still have a size that fits in a `usize`;
    /// otherwise `fresh` is dropped and nothing changes.
    pub fn grow_with(&mut self, fresh: BumpAllocator, size: usize, align: usize) -> (r: Option<usize>)
        requires
            old(self).wf(),
            fresh.wf(),
        ensures
            final(self).wf(),
            old(self)@.takes(fresh@, size as int, align as int) ==> {
                &&& r == Some(fresh@.placement(align as int) as usize)
                &&& final(self)@ == old(self)@.grown(fresh@.after_allocate(size as int, align as int))
            },
            !old(self)@.takes(fresh@, size as int, align as int) ==> r is None && final(self)@ == old(
                self,
            )@,
    {
        proof {
            self.lemma_wf();
            fresh.lemma_wf();
        }
        let mut fresh = fresh;
        let ghost before = fresh@;
        let total: usize = self.total_capacity();
        if fresh.capacity() > usize::MAX - total {
            return None;
        }
        match fresh.allocate(size, align) {
            None => None,
            Some(addr) => {
                let ghost states = self@.allocators;
                self.allocators.push(fresh);
                self.current_allocator = self.allocators.len() - 1;
                proof {
                    assert(self@.allocators =~= states.push(fresh@));
                    assert(self@.allocators.drop_last() =~= states);
                    assert(self@.pools =~= old(self)@.pools);
                    assert(fresh@.capacity() == before.capacity());
                }
                Some(addr)
            },
        }
    }

    /// Serves a request of `size` bytes aligned to `align`: from the first
    /// pool that serves such requests, if it has a free slot; otherwise from
    /// the current linear allocator; and if that one is exhausted, from a new
    /// linear allocator of `max(allocator_size, 2 * size)` bytes, which
    /// becomes current. Whether the new allocator's block can be reserved is
    /// for the system allocator to decide.
    pub fn allocate(&mut self, size: usize, align: usize) -> (r: Option<usize>)
        requires
            old(self).wf(),
        ensures
            final(self).wf(),
            old(self)@.answers(size as int, align as int, r, final(self)@),
            r matches Some(addr) ==> align > 0 && addr as int % align as int == 0,
    {
        let r = self.route_request(size, align);
        proof {
            if r is Some {
                old(self).lemma_wf();
                lemma_answer_is_aligned(old(self)@, size as int, align as int, r.unwrap(), self@);
            }
        }
        r
    }

    /// The routing of `allocate`.
    fn route_request(&mut self, size: usize, align: usize) -> (r: Option<usize>)
        requires
            old(self).wf(),
        ensures
            final(self).wf(),
            old(self)@.answers(size as int, align as int, r, final(self)@),
    {
        proof {
            self.lemma_wf();
        }
        let ghost pools = self@.pools;
        let mut i: usize = 0;
        while i < self.pools.len()
            invariant
                *self == *old(self),
                self.wf(),
                pools == self@.pools,
                i <= self.pools@.len(),
                first_serving(pools, size as int, align as int, 0) == first_serving(
                    pools,
                    size as int,
                    align as int,
                    i as int,
                ),
            ensures
                i <= self.pools@.len(),
                i == first_serving(pools, size as int, align as int, 0),
            decreases self.pools@.len() - i,
        {
            let block_size: usize = self.pools[i].block_size();
            if block_size >= size && align > 0 && block_size % align == 0 {
                break ;
            }
            i = i + 1;
        }
        if i < self.pools.len() {
            if let Some(addr) = self.pools[i].allocate() {
                proof {
                    assert(self@.pools =~= pools.update(i as int, pools[i as int].after_allocate()));
                    assert(self@.allocators =~= old(self)@.allocators);
                }
                return Some(addr);
            }
        }
        let ghost states = self@.allocators;
        let current: usize = self.current_allocator;
        if let Some(addr) = self.allocators[current].allocate(size, align) {
            proof {
                assert(self@.allocators =~= states.update(
                    current as int,
                    states[current as int].after_allocate(size as int, align as int),
                ));
                assert(self@.pools =~= old(self)@.pools);
                lemma_update_capacity(states, current as int, self@.allocators[current as int]);
            }
            return Some(addr);
        }
        proof {
            assert(self@.allocators =~= states);
            assert(self@.pools =~= old(self)@.pools);
        }
        let doubled: usize = match size.checked_add(size) {
            Some(d) => d,
            None => {
                return None;
            },
        };
        let wanted: usize = if self.allocator_size >= doubled {
            self.allocator_size
        } else {
            doubled
        };
        match BumpAllocator::new(wanted) {
            Ok(fresh) => {
                proof {
                    fresh.lemma_wf();
                }
                self.grow_with(fresh, size, align)
            },
            Err(_) => None,
        }
    }

    /// Total bytes handed out by the linear allocators; the pools are not
    /// counted.
    pub fn total_used(&self) -> (n: usize)
        requires
            self.wf(),
        ensures
            n == self@.total_used(),
    {
        let ghost states = self@.allocators;
        let mut total: usize = 0;
        let mut i: usize = 0;
        while i < self.allocators.len()
            invariant
                self.wf(),
                states == self.allocators@.map_values(|a: BumpAllocator| a@),
                i <= self.allocators@.len(),
                total == sum_used(states.take(i as int)),
            decreases self.allocators@.len() - i,
        {
            proof {
                lemma_sums(self.allocators@, i + 1);
                assert(states.take(i + 1).drop_last() == states.take(i as int));
            }
            total = total + self.allocators[i].used();
            i = i + 1;
        }
        proof {
            assert(states.take(i as int) == states);
        }
        total
    }

    /// Total bytes in the blocks of the linear allocators; the pools are not
    /// counted.
    pub fn total_capacity(&self) -> (n: usize)
        requires
            self.wf(),
        ensures
            n == self@.total_capacity(),
    {
        let ghost states = self@.allocators;
        let mut total: usize = 0;
        let mut i: usize = 0;
        while i < self.allocators.len()
            invariant
                self.wf(),
                states == self.allocators@.map_values(|a: BumpAllocator| a@),
                i <= self.allocators@.len(),
                total == sum_capacity(states.take(i as int)),
            decreases self.allocators@.len() - i,
        {
            proof {
                lemma_sums(self.allocators@, i + 1);
                assert(states.take(i + 1).drop_last() == states.take(i as int));
            }
            total = total + self.allocators[i].capacity();
            i = i + 1;
        }
        proof {
            assert(states.take(i as int) == states);
        }
        total
    }

    /// Gives the range of `size` bytes at `addr` back: to the first pool whose
    /// slots have exactly `size` bytes, if there is one. What a linear
    /// allocator handed out is freed by `reset` alone, so for any other size
    /// nothing changes.
    pub fn deallocate(&mut self, addr: usize, size: usize)
        requires
            old(self).wf(),
        ensures
            final(self).wf(),
            old(self)@.home(size as int) < old(self)@.pools.len() ==> final(self)@ == old(self)@.with_pool(
                old(self)@.home(size as int),
                old(self)@.pools[old(self)@.home(size as int)].after_deallocate(addr),
            ),
            old(self)@.home(size as int) >= old(self)@.pools.len() ==> final(self)@ == old(self)@,
    {
        let ghost pools = self@.pools;
        let mut i: usize = 0;
        while i < self.pools.len()
            invariant
                *self == *old(self),
                self.wf(),
                pools == self@.pools,
                i <= self.pools@.len(),
                first_of_size(pools, size as int, 0) == first_of_size(pools, size as int, i as int),
            decreases self.pools@.len() - i,
        {
            if self.pools[i].block_size() == size {
                self.pools[i].deallocate(addr);
                proof {
                    assert(self@.pools =~= pools.update(i as int, pools[i as int].after_deallocate(addr)));
                    assert(self@.allocators =~= old(self)@.allocators);
                }
                return ;
            }
            i = i + 1;
        }
    }
}

/// Rewinding every allocator leaves nothing handed out and keeps what the
/// blocks hold.
proof fn lemma_reset_sums(states: Seq<BumpState>)
    ensures
        sum_used(states.map_values(|a: BumpState| a.after_reset())) == 0,
        sum_capacity(states.map_values(|a: BumpState| a.after_reset())) == sum_capacity(states),
    decreases states.len(),
{
    let rewound = states.map_values(|a: BumpState| a.after_reset());
    if states.len() > 0 {
        lemma_reset_sums(states.drop_last());
        assert(rewound.drop_last() =~= states.drop_last().map_values(|a: BumpState| a.after_reset()));
    }
}

/// Replacing an allocator's state by one of the same capacity keeps what the
/// blocks hold.
proof fn lemma_update_capacity(states: Seq<BumpState>, i: int, state: BumpState)
    requires
        0 <= i < states.len(),
        state.capacity() == states[i].capacity(),
    ensures
        sum_capacity(states.update(i, state)) == sum_capacity(states),
    decreases states.len(),
{
    let updated = states.update(i, state);
    if i == states.len() - 1 {
        assert(updated.drop_last() =~= states.drop_last());
    } else {
        lemma_update_capacity(states.drop_last(), i, state);
        assert(updated.drop_last() =~= states.drop_last().update(i, state));
    }
}

/// For well-formed allocators, what the first `n` have handed out is not
/// negative and not more than their blocks hold, and their blocks hold no more
/// than all blocks together.
proof fn lemma_sums(allocators: Seq<BumpAllocator>, n: int)
    requires
        0 <= n <= allocators.len(),
        forall|i: int| 0 <= i < allocators.len() ==> (#[trigger] allocators[i]).wf(),
    ensures
        0 <= sum_used(allocators.map_values(|a: BumpAllocator| a@).take(n)) <= sum_capacity(
            allocators.map_values(|a: BumpAllocator| a@).take(n),
        ) <= sum_capacity(allocators.map_values(|a: BumpAllocator| a@)),
    decreases allocators.len() - n,
{
    let states = allocators.map_values(|a: BumpAllocator| a@);
    lemma_prefix_sums(allocators, n);
    if n < allocators.len() {
        lemma_sums(allocators, n + 1);
        allocators[n].lemma_wf();
        assert(states.take(n + 1).drop_last() == states.take(n));
    } else {
        assert(states.take(n) == states);
    }
}

/// For well-formed allocators, what the first `n` have handed out is not
/// negative and not more than their blocks hold.
proof fn lemma_prefix_sums(allocators: Seq<BumpAllocator>, n: int)
    requires
        0 <= n <= allocators.len(),
        forall|i: int| 0 <= i < allocators.len() ==> (#[trigger] allocators[i]).wf(),
    ensures
        0 <= sum_used(allocators.map_values(|a: BumpAllocator| a@).take(n)) <= sum_capacity(
            allocators.map_values(|a: BumpAllocator| a@).take(n),
        ),
    decreases n,
{
    let states = allocators.map_values(|a: BumpAllocator| a@);
    if n > 0 {
        lemma_prefix_sums(allocators, n - 1);
        allocators[n - 1].lemma_wf();
        assert(states.take(n).drop_last() == states.take(n - 1));
    }
}

/// A multiple of a multiple of `c` is a multiple of `c`.
proof fn lemma_multiple_of_multiple(a: int, b: int, c: int)
    requires
        b > 0,
        c > 0,
        a % b == 0,
        b % c == 0,
    ensures
        a % c == 0,
{
    lemma_fundamental_div_mod(a, b);
    lemma_fundamental_div_mod(b, c);
    let k = a / b;
    let m = b / c;
    assert(a == (m * k) * c) by (nonlinear_arith)
        requires
            a == b * k,
            b == c * m,
    ;
    lemma_mod_multiples_basic(m * k, c);
}

/// After a reset nothing is handed out, and the next request is placed at the
/// first multiple of its alignment in the range: at or below every address
/// with that alignment that was handed out before.
pub proof fn lemma_reset_reuses(state: BumpState, align: int, earlier: int)
    requires
        state.inv(),
        align > 0,
        state.start <= earlier,
        earlier % align == 0,
    ensures
        state.after_reset().inv(),
        state.after_reset().used() == 0,
        state.after_reset().placement(align) == align_up(state.start, align),
        state.after_reset().placement(align) <= earlier,
{
    lemma_align_up_is_least(state.start, align);
}

/// The addresses of different slots differ, so the free list of a fresh pool
/// holds no address twice.
pub proof fn lemma_fresh_is_distinct(pool: PoolState)
    requires
        pool.inv(),
        pool.fresh(),
    ensures
        pool.free.no_duplicates(),
{
    assert forall|i: int, j: int| 0 <= i < pool.free.len() && 0 <= j < pool.free.len() && i != j implies pool.free[i]
        != pool.free[j] by {
        assert(pool.free[i] == pool.slot(i));
        assert(pool.free[j] == pool.slot(j));
        assert(i * pool.block_size != j * pool.block_size) by (nonlinear_arith)
            requires
                i != j,
                pool.block_size > 0,
        ;
    }
}

/// A free list that holds no address twice holds no more addresses than the
/// pool has slots, so the slots that are handed out and the free ones add up
/// to all slots, with neither count negative.
pub proof fn lemma_distinct_free_fits(pool: PoolState)
    requires
        pool.inv(),
        pool.free.no_duplicates(),
    ensures
        pool.free.len() <= pool.slots,
        pool.allocated() >= 0,
        pool.allocated() + pool.free.len() == pool.slots,
{
    let bs = pool.block_size;
    let indices = Seq::new(pool.free.len(), |j: int| (pool.free[j] - pool.start) / bs);
    assert forall|j: int| 0 <= j < indices.len() implies 0 <= #[trigger] indices[j] < pool.slots && pool.free[j]
        - pool.start == bs * indices[j] by {
        let off = pool.free[j] - pool.start;
        assert(pool.owns(pool.free[j] as int));
        lemma_fundamental_div_mod(off, bs);
        assert(0 <= off / bs < pool.slots) by (nonlinear_arith)
            requires
                off == bs * (off / bs),
                0 <= off < bs * pool.slots,
                bs > 0,
        ;
    }
    assert forall|i: int, j: int| 0 <= i < indices.len() && 0 <= j < indices.len() && i != j implies indices[i]
        != indices[j] by {
        assert(pool.free[i] != pool.free[j]);
    }
    indices.unique_seq_to_set();
    lemma_int_range(0, pool.slots);
    assert(indices.to_set().subset_of(set_int_range(0, pool.slots))) by {
        assert forall|x: int| indices.to_set().contains(x) implies set_int_range(0, pool.slots).contains(x) by {
            let j = choose|j: int| 0 <= j < indices.len() && indices[j] == x;
            assert(0 <= indices[j] < pool.slots);
        }
    }
    lemma_len_subset(indices.to_set(), set_int_range(0, pool.slots));
}

/// Handing out takes the address out of a free list that holds no address
/// twice, and the list still holds none twice.
pub proof fn lemma_allocate_takes_out(pool: PoolState)
    requires
        pool.free.no_duplicates(),
        pool.free.len() > 0,
    ensures
        !pool.after_allocate().free.contains(pool.free.last()),
        pool.after_allocate().free.no_duplicates(),
{
    let rest = pool.after_allocate().free;
    if rest.contains(pool.free.last()) {
        let j = choose|j: int| 0 <= j < rest.len() && rest[j] == pool.free.last();
        assert(pool.free[j] == pool.free[pool.free.len() - 1]);
    }
}

/// An address that is not in the free list is not handed out, and it is not
/// in the free list after another address was handed out or given back. So an
/// address that was handed out is not handed out again until it is given back
/// itself.
pub proof fn lemma_outstanding_is_not_reissued(pool: PoolState, held: usize, other: usize)
    requires
        !pool.free.contains(held),
    ensures
        pool.free.len() > 0 ==> pool.free.last() != held,
        !pool.after_allocate().free.contains(held),
        other != held ==> !pool.after_deallocate(other).free.contains(held),
{
    if pool.free.len() > 0 {
        assert(pool.free.contains(pool.free[pool.free.len() - 1]));
    }
    let rest = pool.after_allocate().free;
    if rest.contains(held) {
        let j = choose|j: int| 0 <= j < rest.len() && rest[j] == held;
        assert(pool.free[j] == held);
    }
    let more = pool.after_deallocate(other).free;
    if other != held && more.contains(held) {
        let j = choose|j: int| 0 <= j < more.len() && more[j] == held;
        assert(pool.free[j] == held);
    }
}

/// Giving back an address that is not free keeps a free list that holds no
/// address twice so.
pub proof fn lemma_deallocate_keeps_distinct(pool: PoolState, addr: usize)
    requires
        pool.free.no_duplicates(),
        !pool.free.contains(addr),
    ensures
        pool.after_deallocate(addr).free.no_duplicates(),
{
    let more = pool.after_deallocate(addr).free;
    assert forall|i: int, j: int| 0 <= i < more.len() && 0 <= j < more.len() && i != j implies more[i]
        != more[j] by {
        if i < pool.free.len() {
            assert(pool.free.contains(pool.free[i]));
        }
        if j < pool.free.len() {
            assert(pool.free.contains(pool.free[j]));
        }
    }
}

/// An address that an arena answers a request with is a multiple of the
/// alignment that was asked for.
pub proof fn lemma_answer_is_aligned(before: ArenaState, size: int, align: int, addr: usize, after: ArenaState)
    requires
        before.inv(),
        size >= 0,
        before.answers(size, align, Some(addr), after),
    ensures
        align > 0,
        addr as int % align == 0,
{
    if before.pool_hit(size, align) {
        let i = before.route(size, align);
        lemma_route_serves(before.pools, size, align, 0);
        let pool = before.pools[i];
        assert(pool.inv());
        assert(pool.owns(pool.free[pool.free.len() - 1] as int));
        let off = addr - pool.start;
        lemma_fundamental_div_mod(off, pool.block_size);
        lemma_fundamental_div_mod(pool.start, pool.block_size);
        assert(addr as int == pool.block_size * (off / pool.block_size + pool.start / pool.block_size))
            by (nonlinear_arith)
            requires
                off == pool.block_size * (off / pool.block_size),
                pool.start == pool.block_size * (pool.start / pool.block_size),
                addr as int == off + pool.start,
        ;
        lemma_mod_multiples_basic(off / pool.block_size + pool.start / pool.block_size, pool.block_size);
        assert(addr as int == (off / pool.block_size + pool.start / pool.block_size) * pool.block_size)
            by (nonlinear_arith)
            requires
                addr as int == pool.block_size * (off / pool.block_size + pool.start / pool.block_size),
        ;
        lemma_multiple_of_multiple(addr as int, pool.block_size, align);
    } else if before.bump_hit(size, align) {
        let state = before.allocators[before.current];
        assert(state.inv());
        lemma_align_up_is_least(state.cursor, align);
    } else {
        lemma_align_up_is_least(after.allocators.last().start, align);
    }
}

/// The pool that a request is routed to, if there is one, serves it.
proof fn lemma_route_serves(pools: Seq<PoolState>, size: int, align: int, from: int)
    requires
        0 <= from <= pools.len(),
    ensures
        from <= first_serving(pools, size, align, from) <= pools.len(),
        first_serving(pools, size, align, from) < pools.len() ==> serves(
            pools[first_serving(pools, size, align, from)],
            size,
            align,
        ),
    decreases pools.len() - from,
{
    if from < pools.len() && !serves(pools[from], size, align) {
        lemma_route_serves(pools, size, align, from + 1);
    }
}

/// A new linear allocator of `growth(size)` bytes can serve the request that
/// it was made for, if the request's alignment is no more than one above its
/// size, or divides the allocator's start.
pub proof fn lemma_growth_serves(arena: ArenaState, fresh: BumpState, size: int, align: int)
    requires
        fresh.inv(),
        fresh.used() == 0,
        fresh.capacity() == arena.growth(size),
        size >= 0,
        align > 0,
        align <= size + 1 || fresh.start % align == 0,
    ensures
        fresh.capacity() >= 2 * size,
        fresh.fits(size, align),
{
    lemma_align_up_is_least(fresh.start, align);
}

} // verus!
