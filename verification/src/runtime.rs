//! The runtime's view of memory: one arena and one collector behind a single
//! handle.

use vstd::prelude::*;
use crate::allocator::Arena;
use crate::allocator::ArenaState;
use crate::allocator::standard_pools;
use crate::gc::GarbageCollector;
use crate::gc::GcState;
use crate::gc::ObjectRecord;
use crate::gc::DEFAULT_THRESHOLD;
use crate::memory::request_fits;

verus! {

/// Size of the first linear allocator of a runtime that was made without one:
/// one mebibyte.
pub const DEFAULT_ARENA_SIZE: usize = 1048576;

/// What a runtime is: its arena and its collector.
pub struct RuntimeState {
    pub arena: ArenaState,
    pub gc: GcState,
}

/// Owner of one arena and one collector; it hands requests on to them.
pub struct Runtime {
    arena: Arena,
    gc: GarbageCollector,
}

impl View for Runtime {
    type V = RuntimeState;

    closed spec fn view(&self) -> RuntimeState {
        RuntimeState { arena: self.arena@, gc: self.gc@ }
    }
}

/// Whether `arena` is what a new arena of `size` bytes is: one empty linear
/// allocator of that size, and the pools of a new arena.
pub open spec fn new_arena(arena: ArenaState, size: int) -> bool {
    &&& arena.allocators.len() == 1
    &&& arena.allocators[0].used() == 0
    &&& arena.allocators[0].capacity() == size
    &&& arena.current == 0
    &&& arena.allocator_size == size
    &&& standard_pools(arena.pools)
}

/// Whether `gc` is what a new collector with `threshold` is: it tracks
/// nothing and has no roots.
pub open spec fn new_collector(gc: GcState, threshold: int) -> bool {
    &&& gc.objects == Map::<usize, ObjectRecord>::empty()
    &&& gc.roots == Set::<usize>::empty()
    &&& gc.total_allocated == 0
    &&& gc.threshold == threshold
}

impl Runtime {
    /// The arena and the collector are well formed.
    pub closed spec fn wf(&self) -> bool {
        self.arena.wf() && self.gc.wf()
    }

    /// A runtime over `arena` and `gc`.
    pub fn from_parts(arena: Arena, gc: GarbageCollector) -> (rt: Self)
        requires
            arena.wf(),
            gc.wf(),
        ensures
            rt.wf(),
            rt@.arena == arena@,
            rt@.gc == gc@,
    {
        Runtime { arena, gc }
    }

    /// A runtime with an arena of one mebibyte and a collector with the
    /// default threshold.
    pub fn new() -> (r: Result<Self, &'static str>)
        ensures
            r is Err ==> r->Err_0@ == "Failed to allocate memory"@,
            r is Ok ==> {
                &&& r->Ok_0.wf()
                &&& new_arena(r->Ok_0@.arena, DEFAULT_ARENA_SIZE as int)
                &&& new_collector(r->Ok_0@.gc, DEFAULT_THRESHOLD as int)
            },
    {
        match Arena::new(DEFAULT_ARENA_SIZE) {
            Ok(arena) => Ok(Runtime::from_parts(arena, GarbageCollector::new())),
            Err(e) => Err(e),
        }
    }

    /// A runtime with an arena of `size` bytes and a collector with the
    /// default threshold.
    pub fn with_arena_size(size: usize) -> (r: Result<Self, &'static str>)
        ensures
            size == 0 ==> r is Err && r->Err_0@ == "Allocator size must be greater than 0"@,
            size > 0 && !request_fits(size as int, 8) ==> r is Err && r->Err_0@ == "Invalid layout"@,
            request_fits(size as int, 8) && r is Err ==> r->Err_0@ == "Failed to allocate memory"@,
            r is Ok ==> {
                &&& r->Ok_0.wf()
                &&& new_arena(r->Ok_0@.arena, size as int)
                &&& new_collector(r->Ok_0@.gc, DEFAULT_THRESHOLD as int)
            },
    {
        match Arena::new(size) {
            Ok(arena) => Ok(Runtime::from_parts(arena, GarbageCollector::new())),
            Err(e) => Err(e),
        }
    }

    /// A runtime with an arena of one mebibyte and a collector with
    /// `threshold`.
    pub fn with_gc_threshold(threshold: usize) -> (r: Result<Self, &'static str>)
        ensures
            r is Err ==> r->Err_0@ == "Failed to allocate memory"@,
            r is Ok ==> {
                &&& r->Ok_0.wf()
                &&& new_arena(r->Ok_0@.arena, DEFAULT_ARENA_SIZE as int)
                &&& new_collector(r->Ok_0@.gc, threshold as int)
            },
    {
        match Arena::new(DEFAULT_ARENA_SIZE) {
            Ok(arena) => Ok(Runtime::from_parts(arena, GarbageCollector::with_threshold(threshold))),
            Err(e) => Err(e),
        }
    }

    /// Serves a request of `size` bytes aligned to `align` from the arena.
    pub fn allocate(&mut self, size: usize, align: usize) -> (r: Option<usize>)
        requires
            old(self).wf(),
        ensures
            final(self).wf(),
            old(self)@.arena.answers(size as int, align as int, r, final(self)@.arena),
            final(self)@.gc == old(self)@.gc,
    {
        self.arena.allocate(size, align)
    }

    /// Resets the arena: every linear allocator is rewound.
    pub fn reset(&mut self)
        requires
            old(self).wf(),
        ensures
            final(self).wf(),
            final(self)@.arena == old(self)@.arena.after_reset(),
            final(self)@.arena.total_used() == 0,
            final(self)@.gc == old(self)@.gc,
    {
        self.arena.reset();
    }

    /// Bytes handed out by the arena's linear allocators, and bytes in their
    /// blocks.
    pub fn memory_stats(&self) -> (r: (usize, usize))
        requires
            self.wf(),
        ensures
            r.0 == self@.arena.total_used(),
            r.1 == self@.arena.total_capacity(),
    {
        (self.arena.total_used(), self.arena.total_capacity())
    }

    /// Runs a collection; returns the bytes that it freed.
    pub fn collect_garbage(&mut self) -> (freed: usize)
        requires
            old(self).wf(),
        ensures
            final(self).wf(),
            final(self)@.gc == old(self)@.gc.after_collect(),
            final(self)@.arena == old(self)@.arena,
            freed == old(self)@.gc.unreachable_bytes(),
            freed == old(self)@.gc.total_allocated - final(self)@.gc.total_allocated,
    {
        self.gc.force_collect()
    }

    /// The collector's reserved bytes, its number of tracked objects, and the
    /// number of those that are marked.
    pub fn gc_stats(&self) -> (r: (usize, usize, usize))
        ensures
            r.0 == self@.gc.total_allocated,
            r.1 == self@.gc.objects.dom().len(),
            r.2 == self@.gc.live().len(),
    {
        self.gc.stats()
    }

    /// Runs a collection.
    pub fn gc_collect(&mut self)
        requires
            old(self).wf(),
        ensures
            final(self).wf(),
            final(self)@.gc == old(self)@.gc.after_collect(),
            final(self)@.arena == old(self)@.arena,
    {
        self.gc.collect();
    }
}

} // verus!
