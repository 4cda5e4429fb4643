//! A mark-and-sweep collector: it tracks objects by the address of their data,
//! keeps a set of roots, and frees every tracked object that is not a root.

use vstd::prelude::*;
use std::collections::HashMap;
use std::collections::HashSet;
use vstd::std_specs::hash::spec_keys_iter;
use vstd::std_specs::hash::spec_hash_keys_iter;
use vstd::std_specs::iter::IteratorSpec;
use vstd::set_lib::lemma_set_disjoint_lens;
use vstd::set_lib::lemma_set_subset_finite;
use crate::memory::align_up;
use crate::memory::lemma_align_up_is_least;
use crate::memory::round_up;
use crate::memory::Block;

verus! {

broadcast use vstd::std_specs::hash::group_hash_axioms;

/// Bytes that an object's header takes in front of its data.
pub const HEADER_SIZE: usize = 16;

/// Threshold of a collector that was made without one: one mebibyte.
pub const DEFAULT_THRESHOLD: usize = 1048576;

/// Bytes reserved for an object of `size` bytes: header and data, rounded up
/// to a multiple of 8.
pub open spec fn object_bytes(size: int) -> int {
    align_up(HEADER_SIZE + size, 8)
}

/// Address of the data of an object whose header begins `block`.
pub open spec fn data_address(block: Block) -> usize {
    (block.start() + HEADER_SIZE) as usize
}

/// Header of a tracked object: whether the last marking reached it, and the
/// number of bytes that were asked for.
#[derive(Clone, Copy)]
pub struct GcHeader {
    pub marked: bool,
    pub size: usize,
}

/// What the collector keeps of a tracked object: its header, and the bytes
/// reserved for it, header included.
#[derive(Clone, Copy)]
pub struct ObjectRecord {
    pub header: GcHeader,
    pub total: usize,
}

/// Sum of the reserved bytes of the objects whose address is below `bound`.
pub open spec fn sum_below(objects: Map<usize, ObjectRecord>, bound: nat) -> int
    decreases bound,
{
    if bound == 0 {
        0
    } else {
        let last = (bound - 1) as usize;
        sum_below(objects, (bound - 1) as nat) + if objects.contains_key(last) {
            objects[last].total as int
        } else {
            0
        }
    }
}

/// Sum of the reserved bytes of all of `objects`.
pub open spec fn sum_total(objects: Map<usize, ObjectRecord>) -> int {
    sum_below(objects, (usize::MAX + 1) as nat)
}

/// The objects that are marked.
pub open spec fn marked_part(objects: Map<usize, ObjectRecord>) -> Map<usize, ObjectRecord> {
    Map::new(|a: usize| objects.contains_key(a) && objects[a].header.marked, |a: usize| objects[a])
}

/// The objects that are not marked.
pub open spec fn unmarked_part(objects: Map<usize, ObjectRecord>) -> Map<usize, ObjectRecord> {
    Map::new(|a: usize| objects.contains_key(a) && !objects[a].header.marked, |a: usize| objects[a])
}

/// `objects` with each mark set as `roots` says: marked if the address is a
/// root, unmarked otherwise.
pub open spec fn marked_from(objects: Map<usize, ObjectRecord>, roots: Set<usize>) -> Map<usize, ObjectRecord> {
    Map::new(
        |a: usize| objects.contains_key(a),
        |a: usize|
            ObjectRecord {
                header: GcHeader { marked: roots.contains(a), size: objects[a].header.size },
                total: objects[a].total,
            },
    )
}

/// The sum of reserved bytes with and without the object at `addr` differ by
/// that object's bytes.
pub proof fn lemma_sum_without(objects: Map<usize, ObjectRecord>, addr: usize, bound: nat)
    requires
        bound <= usize::MAX + 1,
    ensures
        sum_below(objects, bound) == sum_below(objects.remove(addr), bound) + if addr < bound
            && objects.contains_key(addr) {
            objects[addr].total as int
        } else {
            0
        },
    decreases bound,
{
    if bound > 0 {
        lemma_sum_without(objects, addr, (bound - 1) as nat);
    }
}

/// Objects that differ in their marks alone have the same sum of reserved
/// bytes.
pub proof fn lemma_sum_ignores_marks(a: Map<usize, ObjectRecord>, b: Map<usize, ObjectRecord>, bound: nat)
    requires
        bound <= usize::MAX + 1,
        a.dom() == b.dom(),
        forall|k: usize| a.contains_key(k) ==> a[k].total == b[k].total,
    ensures
        sum_below(a, bound) == sum_below(b, bound),
    decreases bound,
{
    if bound > 0 {
        lemma_sum_ignores_marks(a, b, (bound - 1) as nat);
        let last = (bound - 1) as usize;
        assert(a.contains_key(last) == b.dom().contains(last));
    }
}

/// The reserved bytes of the marked and of the unmarked objects add up to
/// those of all objects, and neither sum is negative.
pub proof fn lemma_sum_by_mark(objects: Map<usize, ObjectRecord>, bound: nat)
    requires
        bound <= usize::MAX + 1,
    ensures
        sum_below(objects, bound) == sum_below(marked_part(objects), bound) + sum_below(
            unmarked_part(objects),
            bound,
        ),
        sum_below(marked_part(objects), bound) >= 0,
        sum_below(unmarked_part(objects), bound) >= 0,
    decreases bound,
{
    if bound > 0 {
        lemma_sum_by_mark(objects, (bound - 1) as nat);
    }
}

/// A sum of reserved bytes is not below the bytes of any object in it.
pub proof fn lemma_sum_covers(objects: Map<usize, ObjectRecord>, addr: usize, bound: nat)
    requires
        bound <= usize::MAX + 1,
    ensures
        sum_below(objects, bound) >= 0,
        addr < bound && objects.contains_key(addr) ==> sum_below(objects, bound) >= objects[addr].total,
    decreases bound,
{
    if bound > 0 {
        lemma_sum_covers(objects, addr, (bound - 1) as nat);
    }
}

/// Where no object is tracked, no bytes are reserved.
pub proof fn lemma_sum_of_none(objects: Map<usize, ObjectRecord>, bound: nat)
    requires
        bound <= usize::MAX + 1,
        forall|a: usize| !objects.contains_key(a),
    ensures
        sum_below(objects, bound) == 0,
    decreases bound,
{
    if bound > 0 {
        lemma_sum_of_none(objects, (bound - 1) as nat);
    }
}

/// What a collector is: the tracked objects by the address of their data, the
/// roots, the reserved bytes of all tracked objects, and the number of
/// reserved bytes from which on an allocation collects first.
pub struct GcState {
    pub objects: Map<usize, ObjectRecord>,
    pub roots: Set<usize>,
    pub total_allocated: int,
    pub threshold: int,
}

impl GcState {
    /// What holds of every collector: it tracks finitely many objects, the
    /// reserved bytes of each are what its size asks for, and the total is
    /// their sum.
    pub open spec fn inv(self) -> bool {
        &&& self.objects.dom().finite()
        &&& self.total_allocated == sum_total(self.objects)
        &&& forall|a: usize| #[trigger]
            self.objects.contains_key(a) ==> self.objects[a].total == object_bytes(
                self.objects[a].header.size as int,
            )
    }

    /// Addresses of the tracked objects that are not roots.
    pub open spec fn unreachable(self) -> Set<usize> {
        self.objects.dom().filter(|a: usize| !self.roots.contains(a))
    }

    /// The record of an object of `size` bytes that was just allocated.
    pub open spec fn fresh_record(size: usize) -> ObjectRecord {
        ObjectRecord {
            header: GcHeader { marked: false, size },
            total: object_bytes(size as int) as usize,
        }
    }

    /// Whether an allocation collects before it reserves.
    pub open spec fn due(self) -> bool {
        self.total_allocated >= self.threshold
    }

    /// Addresses of the objects that the last marking reached.
    pub open spec fn live(self) -> Set<usize> {
        self.objects.dom().filter(|a: usize| self.objects[a].header.marked)
    }

    /// Reserved bytes of the tracked objects that are not roots.
    pub open spec fn unreachable_bytes(self) -> int {
        sum_total(unmarked_part(marked_from(self.objects, self.roots)))
    }

    /// The state after marking: an object is marked exactly if its address is
    /// a root.
    pub open spec fn after_mark(self) -> GcState {
        GcState { objects: marked_from(self.objects, self.roots), ..self }
    }

    /// The state after sweeping: the unmarked objects are gone, and their
    /// bytes with them.
    pub open spec fn after_sweep(self) -> GcState {
        GcState {
            objects: marked_part(self.objects),
            total_allocated: self.total_allocated - sum_total(unmarked_part(self.objects)),
            ..self
        }
    }

    /// The state after a collection: marking, then sweeping.
    pub open spec fn after_collect(self) -> GcState {
        self.after_mark().after_sweep()
    }

    /// The state in which an allocation reserves: after a collection if one
    /// was due, and as it is otherwise.
    pub open spec fn collected_if_due(self) -> GcState {
        if self.due() {
            self.after_collect()
        } else {
            self
        }
    }

    /// Whether an object of `size` bytes at `addr` can be tracked: no object
    /// is tracked at `addr`, and the total with its bytes fits in a `usize`.
    pub open spec fn admits(self, addr: usize, size: int) -> bool {
        &&& !self.objects.contains_key(addr)
        &&& self.total_allocated + object_bytes(size) <= usize::MAX
    }

    /// Whether the state is `base` with a new unmarked object of `size` bytes
    /// at `addr`, where `base` tracked none.
    pub open spec fn extends(self, base: GcState, addr: usize, size: usize) -> bool {
        !base.objects.contains_key(addr) && self == base.tracking(addr, size)
    }

    /// The state with a new unmarked object of `size` bytes at `addr`.
    pub open spec fn tracking(self, addr: usize, size: usize) -> GcState {
        GcState {
            objects: self.objects.insert(addr, Self::fresh_record(size)),
            total_allocated: self.total_allocated + object_bytes(size as int),
            ..self
        }
    }
}

/// Handle to an object that a collector has allocated: the address of its
/// data, the number of bytes asked for, and a mark of its own.
pub struct GcObject {
    data: usize,
    size: usize,
    marked: bool,
}

impl GcObject {
    /// Address of the object's data.
    pub closed spec fn addr(&self) -> usize {
        self.data
    }

    /// Number of bytes that were asked for.
    pub closed spec fn len(&self) -> usize {
        self.size
    }

    /// Whether the handle is marked.
    pub closed spec fn marked(&self) -> bool {
        self.marked
    }

    /// Address of the object's data.
    pub fn data_ptr(&self) -> (a: usize)
        ensures
            a == self.addr(),
    {
        self.data
    }

    /// Number of bytes that were asked for.
    pub fn size(&self) -> (n: usize)
        ensures
            n == self.len(),
    {
        self.size
    }

    /// Marks the handle as reachable.
    pub fn mark(&mut self)
        ensures
            final(self).marked(),
            final(self).addr() == old(self).addr(),
            final(self).len() == old(self).len(),
    {
        self.marked = true;
    }

    /// Whether the handle is marked.
    pub fn is_marked(&self) -> (b: bool)
        ensures
            b == self.marked(),
    {
        self.marked
    }
}

/// A mark-and-sweep collector.
pub struct GarbageCollector {
    objects: HashMap<usize, ObjectRecord>,
    blocks: HashMap<usize, Block>,
    roots: HashSet<usize>,
    total_allocated: usize,
    threshold: usize,
}

impl View for GarbageCollector {
    type V = GcState;

    closed spec fn view(&self) -> GcState {
        GcState {
            objects: self.objects@,
            roots: self.roots@,
            total_allocated: self.total_allocated as int,
            threshold: self.threshold as int,
        }
    }
}

/// The addresses that `objects` tracks, each once.
fn tracked_addresses(objects: &HashMap<usize, ObjectRecord>) -> (keys: Vec<usize>)
    ensures
        keys@.no_duplicates(),
        keys@.to_set() == objects@.dom(),
        keys@.len() == objects@.dom().len(),
{
    let mut keys: Vec<usize> = Vec::new();
    for k in it: objects.keys()
        invariant
            keys@ == it.seq().unref().take(it.index() as int),
    {
        keys.push(*k);
    }
    proof {
        assert(keys@ =~= spec_keys_iter(objects).remaining().unref());
    }
    keys
}

/// The addresses in `roots`, each once.
fn root_addresses(roots: &HashSet<usize>) -> (keys: Vec<usize>)
    ensures
        keys@.no_duplicates(),
        keys@.to_set() == roots@,
{
    let mut keys: Vec<usize> = Vec::new();
    for k in it: roots.iter()
        invariant
            keys@ == it.seq().unref().take(it.index() as int),
    {
        keys.push(*k);
    }
    proof {
        assert(keys@ =~= spec_hash_keys_iter(roots).remaining().unref());
    }
    keys
}

impl GarbageCollector {
    /// Every tracked object has a block, the reserved bytes of an object are
    /// what its size asks for, and the total is their sum.
    pub closed spec fn wf(&self) -> bool {
        &&& self.blocks@.dom() == self.objects@.dom()
        &&& self.total_allocated == sum_total(self.objects@)
        &&& forall|a: usize| #[trigger]
            self.objects@.contains_key(a) ==> self.objects@[a].total == object_bytes(
                self.objects@[a].header.size as int,
            )
    }

    /// What `wf` says, over the collector's view.
    pub proof fn lemma_wf(&self)
        requires
            self.wf(),
        ensures
            self@.inv(),
    {
    }

    /// A collector with the default threshold of one mebibyte.
    pub fn new() -> (gc: Self)
        ensures
            gc.wf(),
            gc@.objects == Map::<usize, ObjectRecord>::empty(),
            gc@.roots == Set::<usize>::empty(),
            gc@.total_allocated == 0,
            gc@.threshold == DEFAULT_THRESHOLD,
    {
        Self::with_threshold(DEFAULT_THRESHOLD)
    }

    /// A collector that tracks nothing and collects before an allocation once
    /// `threshold` bytes are reserved.
    pub fn with_threshold(threshold: usize) -> (gc: Self)
        ensures
            gc.wf(),
            gc@.objects == Map::<usize, ObjectRecord>::empty(),
            gc@.roots == Set::<usize>::empty(),
            gc@.total_allocated == 0,
            gc@.threshold == threshold,
    {
        let gc = GarbageCollector {
            objects: HashMap::new(),
            blocks: HashMap::new(),
            roots: HashSet::new(),
            total_allocated: 0,
            threshold,
        };
        proof {
            lemma_sum_of_none(gc.objects@, (usize::MAX + 1) as nat);
        }
        gc
    }

    /// Makes `addr` a root. An address that is a root already stays one.
    pub fn add_root(&mut self, addr: usize)
        requires
            old(self).wf(),
        ensures
            final(self).wf(),
            final(self)@ == (GcState { roots: old(self)@.roots.insert(addr), ..old(self)@ }),
    {
        self.roots.insert(addr);
    }

    /// Takes `addr` out of the roots. An address that is no root changes
    /// nothing.
    pub fn remove_root(&mut self, addr: usize)
        requires
            old(self).wf(),
        ensures
            final(self).wf(),
            final(self)@ == (GcState { roots: old(self)@.roots.remove(addr), ..old(self)@ }),
    {
        self.roots.remove(&addr);
    }

    /// Marking: clears every mark, then marks each tracked object whose
    /// address is a root. A root that names no tracked object is passed over.
    /// What a marked object refers to is not followed.
    pub fn mark_phase(&mut self)
        requires
            old(self).wf(),
        ensures
            final(self).wf(),
            final(self)@ == old(self)@.after_mark(),
    {
        let ghost before = self.objects@;
        let keys = tracked_addresses(&self.objects);
        let mut i: usize = 0;
        while i < keys.len()
            invariant
                i <= keys@.len(),
                keys@.to_set() == before.dom(),
                self.objects@.dom() == before.dom(),
                self.blocks == old(self).blocks,
                self.roots == old(self).roots,
                self.total_allocated == old(self).total_allocated,
                self.threshold == old(self).threshold,
                forall|a: usize| #[trigger]
                    before.contains_key(a) ==> self.objects@[a].total == before[a].total
                        && self.objects@[a].header.size == before[a].header.size,
                forall|j: int| 0 <= j < i ==> !self.objects@[#[trigger] keys@[j]].header.marked,
            decreases keys@.len() - i,
        {
            let addr: usize = keys[i];
            proof {
                assert(keys@.to_set().contains(keys@[i as int]));
            }
            let record: ObjectRecord = *self.objects.get(&addr).unwrap();
            let cleared = ObjectRecord {
                header: GcHeader { marked: false, size: record.header.size },
                total: record.total,
            };
            self.objects.insert(addr, cleared);
            proof {
                assert(self.objects@.dom() =~= before.dom());
            }
            i = i + 1;
        }
        proof {
            assert forall|a: usize| #[trigger] before.contains_key(a) implies !self.objects@[a].header.marked by {
                assert(keys@.to_set().contains(a));
                let j = choose|j: int| 0 <= j < keys@.len() && keys@[j] == a;
                assert(!self.objects@[keys@[j]].header.marked);
            }
        }
        let mut to_mark: Vec<usize> = root_addresses(&self.roots);
        let mut visited: HashSet<usize> = HashSet::new();
        while to_mark.len() > 0
            invariant
                to_mark@.no_duplicates(),
                forall|x: usize| #[trigger] to_mark@.contains(x) ==> self.roots@.contains(x),
                forall|x: usize| #[trigger] visited@.contains(x) ==> !to_mark@.contains(x),
                self.objects@.dom() == before.dom(),
                self.blocks == old(self).blocks,
                self.roots == old(self).roots,
                self.total_allocated == old(self).total_allocated,
                self.threshold == old(self).threshold,
                forall|a: usize| #[trigger]
                    before.contains_key(a) ==> self.objects@[a].total == before[a].total
                        && self.objects@[a].header.size == before[a].header.size,
                forall|a: usize| #[trigger]
                    before.contains_key(a) ==> (self.objects@[a].header.marked <==> self.roots@.contains(a)
                        && !to_mark@.contains(a)),
            decreases to_mark@.len(),
        {
            let ghost pending = to_mark@;
            let addr: usize = to_mark.pop().unwrap();
            proof {
                assert(pending[pending.len() - 1] == addr);
                assert(pending.contains(addr));
                assert(!to_mark@.contains(addr)) by {
                    if to_mark@.contains(addr) {
                        let j = choose|j: int| 0 <= j < to_mark@.len() && to_mark@[j] == addr;
                        assert(pending[j] == pending[pending.len() - 1]);
                    }
                }
                assert forall|x: usize| #[trigger] to_mark@.contains(x) implies pending.contains(x) by {
                    let j = choose|j: int| 0 <= j < to_mark@.len() && to_mark@[j] == x;
                    assert(pending[j] == x);
                }
                assert forall|x: usize| pending.contains(x) && x != addr implies to_mark@.contains(x) by {
                    let j = choose|j: int| 0 <= j < pending.len() && pending[j] == x;
                    assert(to_mark@[j] == x);
                }
            }
            if !visited.contains(&addr) {
                visited.insert(addr);
                if self.objects.contains_key(&addr) {
                    let record: ObjectRecord = *self.objects.get(&addr).unwrap();
                    let reached = ObjectRecord {
                        header: GcHeader { marked: true, size: record.header.size },
                        total: record.total,
                    };
                    self.objects.insert(addr, reached);
                    proof {
                        assert(self.objects@.dom() =~= before.dom());
                    }
                }
            }
        }
        proof {
            assert(self.objects@ =~= marked_from(before, self.roots@));
            lemma_sum_ignores_marks(before, self.objects@, (usize::MAX + 1) as nat);
        }
    }

    /// Sweeping: every unmarked object leaves the collector, its block is
    /// released, and its bytes leave the total. Marked objects stay as they
    /// are, marks included.
    pub fn sweep_phase(&mut self)
        requires
            old(self).wf(),
        ensures
            final(self).wf(),
            final(self)@ == old(self)@.after_sweep(),
    {
        let ghost before = self.objects@;
        let keys = tracked_addresses(&self.objects);
        let mut to_remove: Vec<usize> = Vec::new();
        let mut i: usize = 0;
        while i < keys.len()
            invariant
                i <= keys@.len(),
                keys@.no_duplicates(),
                keys@.to_set() == before.dom(),
                self.objects@ == before,
                to_remove@.no_duplicates(),
                forall|x: usize| #[trigger]
                    to_remove@.contains(x) <==> (exists|j: int| 0 <= j < i && keys@[j] == x)
                        && !before[x].header.marked,
            decreases keys@.len() - i,
        {
            let addr: usize = keys[i];
            proof {
                assert(keys@.to_set().contains(keys@[i as int]));
            }
            let ghost listed = to_remove@;
            if !self.objects.get(&addr).unwrap().header.marked {
                to_remove.push(addr);
                proof {
                    assert(!listed.contains(addr)) by {
                        if listed.contains(addr) {
                            let j = choose|j: int| 0 <= j < i && keys@[j] == addr;
                            assert(keys@[j] == keys@[i as int]);
                        }
                    }
                    assert forall|x: usize| #[trigger] to_remove@.contains(x) implies (exists|j: int|
                        0 <= j < i + 1 && keys@[j] == x) && !before[x].header.marked by {
                        let k = choose|k: int| 0 <= k < to_remove@.len() && to_remove@[k] == x;
                        if k < listed.len() {
                            assert(listed[k] == x);
                            assert(listed.contains(x));
                            let j = choose|j: int| 0 <= j < i && keys@[j] == x;
                            assert(keys@[j] == x);
                        } else {
                            assert(keys@[i as int] == x);
                        }
                    }
                    assert forall|x: usize|
                        (exists|j: int| 0 <= j < i + 1 && keys@[j] == x)
                            && !before[x].header.marked implies #[trigger] to_remove@.contains(x) by {
                        let j = choose|j: int| 0 <= j < i + 1 && keys@[j] == x;
                        if j < i {
                            assert(listed.contains(x));
                            let k = choose|k: int| 0 <= k < listed.len() && listed[k] == x;
                            assert(to_remove@[k] == x);
                        } else {
                            assert(to_remove@[listed.len() as int] == x);
                        }
                    }
                }
            } else {
                proof {
                    assert forall|x: usize|
                        (exists|j: int| 0 <= j < i + 1 && keys@[j] == x)
                            && !before[x].header.marked implies #[trigger] to_remove@.contains(x) by {
                        let j = choose|j: int| 0 <= j < i + 1 && keys@[j] == x;
                        assert(j < i);
                    }
                }
            }
            i = i + 1;
        }
        proof {
            assert forall|x: usize| #[trigger]
                to_remove@.contains(x) <==> before.contains_key(x) && !before[x].header.marked by {
                if before.contains_key(x) {
                    assert(keys@.to_set().contains(x));
                    let j = choose|j: int| 0 <= j < keys@.len() && keys@[j] == x;
                    assert(keys@[j] == x);
                }
                if to_remove@.contains(x) {
                    let j = choose|j: int| 0 <= j < i && keys@[j] == x;
                    assert(keys@.to_set().contains(keys@[j]));
                }
            }
        }
        let mut n: usize = 0;
        while n < to_remove.len()
            invariant
                n <= to_remove@.len(),
                to_remove@.no_duplicates(),
                forall|x: usize| #[trigger]
                    to_remove@.contains(x) <==> before.contains_key(x) && !before[x].header.marked,
                self.roots == old(self).roots,
                self.threshold == old(self).threshold,
                self.blocks@.dom() == self.objects@.dom(),
                self.total_allocated == sum_total(self.objects@),
                forall|a: usize| #[trigger]
                    self.objects@.contains_key(a) <==> before.contains_key(a) && !(exists|j: int|
                        0 <= j < n && to_remove@[j] == a),
                forall|a: usize| #[trigger] self.objects@.contains_key(a) ==> self.objects@[a] == before[a],
            decreases to_remove@.len() - n,
        {
            let addr: usize = to_remove[n];
            let ghost held = self.objects@;
            proof {
                assert(to_remove@.contains(to_remove@[n as int]));
                assert(held.contains_key(addr)) by {
                    if exists|j: int| 0 <= j < n && to_remove@[j] == addr {
                        let j = choose|j: int| 0 <= j < n && to_remove@[j] == addr;
                        assert(to_remove@[j] == to_remove@[n as int]);
                    }
                }
                lemma_sum_without(held, addr, (usize::MAX + 1) as nat);
                lemma_sum_covers(held.remove(addr), addr, (usize::MAX + 1) as nat);
            }
            if let Some(record) = self.objects.remove(&addr) {
                self.blocks.remove(&addr);
                self.total_allocated = self.total_allocated - record.total;
            }
            proof {
                assert(self.objects@ =~= held.remove(addr));
                assert(self.blocks@.dom() =~= self.objects@.dom());
                assert forall|a: usize| #[trigger]
                    self.objects@.contains_key(a) <==> before.contains_key(a) && !(exists|j: int|
                        0 <= j < n + 1 && to_remove@[j] == a) by {
                    if self.objects@.contains_key(a) {
                        assert(held.contains_key(a));
                        if exists|j: int| 0 <= j < n + 1 && to_remove@[j] == a {
                            let j = choose|j: int| 0 <= j < n + 1 && to_remove@[j] == a;
                            if j < n {
                                assert(to_remove@[j] == a);
                            }
                        }
                    }
                    if before.contains_key(a) && !(exists|j: int| 0 <= j < n + 1 && to_remove@[j] == a) {
                        assert(a != addr);
                        assert(!(exists|j: int| 0 <= j < n && to_remove@[j] == a));
                        assert(held.contains_key(a));
                    }
                }
            }
            n = n + 1;
        }
        proof {
            assert(self.objects@ =~= marked_part(before)) by {
                assert forall|a: usize| self.objects@.contains_key(a) <==> marked_part(before).contains_key(
                    a,
                ) by {
                    if before.contains_key(a) && !before[a].header.marked {
                        assert(to_remove@.contains(a));
                        let j = choose|j: int| 0 <= j < to_remove@.len() && to_remove@[j] == a;
                        assert(to_remove@[j] == a);
                    }
                    if before.contains_key(a) && before[a].header.marked {
                        if exists|j: int| 0 <= j < n && to_remove@[j] == a {
                            let j = choose|j: int| 0 <= j < n && to_remove@[j] == a;
                            assert(to_remove@.contains(to_remove@[j]));
                        }
                    }
                }
            }
            lemma_sum_by_mark(before, (usize::MAX + 1) as nat);
        }
    }

    /// A collection: marking, then sweeping. Afterwards the tracked objects
    /// are those whose address is a root, all of them marked.
    pub fn collect(&mut self)
        requires
            old(self).wf(),
        ensures
            final(self).wf(),
            final(self)@ == old(self)@.after_collect(),
    {
        self.mark_phase();
        self.sweep_phase();
    }

    /// A collection; returns the bytes that it freed: the reserved bytes of the
    /// tracked objects that were not roots.
    pub fn force_collect(&mut self) -> (freed: usize)
        requires
            old(self).wf(),
        ensures
            final(self).wf(),
            final(self)@ == old(self)@.after_collect(),
            freed == old(self)@.unreachable_bytes(),
            freed == old(self)@.total_allocated - final(self)@.total_allocated,
    {
        let before: usize = self.total_allocated;
        proof {
            lemma_sum_by_mark(marked_from(self.objects@, self.roots@), (usize::MAX + 1) as nat);
        }
        self.collect();
        before - self.total_allocated
    }

    /// The reserved bytes of all tracked objects, the number of tracked
    /// objects, and the number of those that are marked.
    pub fn stats(&self) -> (r: (usize, usize, usize))
        ensures
            r.0 == self@.total_allocated,
            r.1 == self@.objects.dom().len(),
            r.2 == self@.live().len(),
    {
        let keys = tracked_addresses(&self.objects);
        let ghost mut seen: Set<usize> = Set::empty();
        let mut live: usize = 0;
        let mut i: usize = 0;
        while i < keys.len()
            invariant
                i <= keys@.len(),
                keys@.no_duplicates(),
                keys@.to_set() == self.objects@.dom(),
                seen.finite(),
                live == seen.len(),
                live <= i,
                forall|x: usize| #[trigger]
                    seen.contains(x) <==> (exists|j: int| 0 <= j < i && keys@[j] == x)
                        && self.objects@[x].header.marked,
            decreases keys@.len() - i,
        {
            let addr: usize = keys[i];
            proof {
                assert(keys@.to_set().contains(keys@[i as int]));
            }
            let ghost counted = seen;
            if self.objects.get(&addr).unwrap().header.marked {
                proof {
                    assert(!counted.contains(addr)) by {
                        if counted.contains(addr) {
                            let j = choose|j: int| 0 <= j < i && keys@[j] == addr;
                            assert(keys@[j] == keys@[i as int]);
                        }
                    }
                    seen = counted.insert(addr);
                    assert forall|x: usize| #[trigger] seen.contains(x) implies (exists|j: int|
                        0 <= j < i + 1 && keys@[j] == x) && self.objects@[x].header.marked by {
                        if x != addr {
                            let j = choose|j: int| 0 <= j < i && keys@[j] == x;
                            assert(keys@[j] == x);
                        } else {
                            assert(keys@[i as int] == x);
                        }
                    }
                    assert forall|x: usize|
                        (exists|j: int| 0 <= j < i + 1 && keys@[j] == x)
                            && self.objects@[x].header.marked implies #[trigger] seen.contains(x) by {
                        let j = choose|j: int| 0 <= j < i + 1 && keys@[j] == x;
                        if j < i {
                            assert(counted.contains(x));
                        }
                    }
                }
                live = live + 1;
            } else {
                proof {
                    assert forall|x: usize|
                        (exists|j: int| 0 <= j < i + 1 && keys@[j] == x)
                            && self.objects@[x].header.marked implies #[trigger] seen.contains(x) by {
                        let j = choose|j: int| 0 <= j < i + 1 && keys@[j] == x;
                        assert(j < i);
                    }
                }
            }
            i = i + 1;
        }
        proof {
            assert(seen =~= self@.live()) by {
                assert forall|x: usize| seen.contains(x) <==> self@.live().contains(x) by {
                    if self.objects@.contains_key(x) {
                        assert(keys@.to_set().contains(x));
                        let j = choose|j: int| 0 <= j < keys@.len() && keys@[j] == x;
                        assert(keys@[j] == x);
                    }
                    if seen.contains(x) {
                        let j = choose|j: int| 0 <= j < i && keys@[j] == x;
                        assert(keys@.to_set().contains(keys@[j]));
                    }
                }
            }
        }
        (self.total_allocated, self.objects.len(), live)
    }

    /// Starts tracking an object of `size` bytes whose header and data lie in
    /// `block`: its data begin `HEADER_SIZE` bytes into the block. The object
    /// is refused, and the block released, if its address is tracked already
    /// or the total would not fit in a `usize`.
    pub fn track(&mut self, block: Block, size: usize) -> (r: Option<GcObject>)
        requires
            old(self).wf(),
            block.wf(),
            block.size() == object_bytes(size as int),
        ensures
            final(self).wf(),
            old(self)@.admits(data_address(block), size as int) ==> {
                &&& r is Some
                &&& r.unwrap().addr() == data_address(block)
                &&& r.unwrap().len() == size
                &&& !r.unwrap().marked()
                &&& final(self)@ == old(self)@.tracking(data_address(block), size)
            },
            !old(self)@.admits(data_address(block), size as int) ==> r is None && final(self)@ == old(
                self,
            )@,
    {
        proof {
            block.lemma_wf();
            lemma_align_up_is_least(HEADER_SIZE + size, 8);
        }
        let total: usize = block.len();
        let data: usize = block.address() + HEADER_SIZE;
        if self.objects.contains_key(&data) || total > usize::MAX - self.total_allocated {
            return None;
        }
        let ghost before = self.objects@;
        let record = ObjectRecord { header: GcHeader { marked: false, size }, total };
        self.objects.insert(data, record);
        self.blocks.insert(data, block);
        self.total_allocated = self.total_allocated + total;
        proof {
            assert(self.blocks@.dom() =~= self.objects@.dom());
            lemma_sum_without(self.objects@, data, (usize::MAX + 1) as nat);
            assert(self.objects@.remove(data) =~= before);
        }
        Some(GcObject { data, size, marked: false })
    }

    /// Allocates an object of `size` bytes and tracks it, unmarked. Where the
    /// reserved bytes have reached the threshold, a collection runs first.
    /// Where the block cannot be reserved, a collection runs and the request
    /// is made once more. Whether a block can be reserved is for the system
    /// allocator to decide.
    pub fn allocate(&mut self, size: usize) -> (r: Option<GcObject>)
        requires
            old(self).wf(),
        ensures
            final(self).wf(),
            !crate::memory::request_fits(object_bytes(size as int), 8) ==> r is None && final(self)@
                == old(self)@.collected_if_due(),
            r is None ==> final(self)@ == old(self)@.collected_if_due() || final(self)@ == old(
                self,
            )@.collected_if_due().after_collect(),
            r matches Some(object) ==> {
                let first = old(self)@.collected_if_due();
                &&& final(self)@.extends(first, object.addr(), size) || final(self)@.extends(
                    first.after_collect(),
                    object.addr(),
                    size,
                )
                &&& object.len() == size
                &&& !object.marked()
                &&& object.addr() % 8 == 0
                &&& object.addr() >= HEADER_SIZE
            },
    {
        if self.total_allocated >= self.threshold {
            self.collect();
        }
        let limit: usize = (isize::MAX as usize) - 7;
        let total: usize = match size.checked_add(HEADER_SIZE) {
            Some(n) => match round_up(n, 8) {
                Some(total) => total,
                None => {
                    return None;
                },
            },
            None => {
                proof {
                    lemma_align_up_is_least(HEADER_SIZE + size, 8);
                }
                return None;
            },
        };
        if total > limit {
            return None;
        }
        let block = match Block::reserve(total, 8) {
            Some(block) => block,
            None => {
                self.collect();
                match Block::reserve(total, 8) {
                    Some(block) => block,
                    None => {
                        return None;
                    },
                }
            },
        };
        proof {
            block.lemma_wf();
            lemma_align_up_is_least(HEADER_SIZE + size, 8);
        }
        self.track(block, size)
    }
}

impl Default for GarbageCollector {
    /// A collector with the default threshold.
    fn default() -> (gc: Self)
        ensures
            gc.wf(),
            gc@.objects == Map::<usize, ObjectRecord>::empty(),
            gc@.roots == Set::<usize>::empty(),
            gc@.total_allocated == 0,
            gc@.threshold == DEFAULT_THRESHOLD,
    {
        Self::new()
    }
}

/// A collection keeps what holds of every collector, and leaves the roots and
/// the threshold as they are.
pub proof fn lemma_collect_keeps_inv(state: GcState)
    requires
        state.inv(),
    ensures
        state.after_collect().inv(),
        state.after_collect().roots == state.roots,
        state.after_collect().threshold == state.threshold,
{
    let marked = marked_from(state.objects, state.roots);
    let bound = (usize::MAX + 1) as nat;
    assert(marked.dom() =~= state.objects.dom());
    lemma_sum_ignores_marks(state.objects, marked, bound);
    lemma_sum_by_mark(marked, bound);
    assert(marked_part(marked).dom().subset_of(state.objects.dom()));
    lemma_set_subset_finite(state.objects.dom(), marked_part(marked).dom());
}

/// A tracked object whose address is a root is tracked after a collection,
/// marked and with its size and bytes as before. The roots stay, so this
/// holds of every further collection too.
pub proof fn lemma_root_survives(state: GcState, addr: usize)
    requires
        state.objects.contains_key(addr),
        state.roots.contains(addr),
    ensures
        state.after_collect().roots == state.roots,
        state.after_collect().objects.contains_key(addr),
        state.after_collect().objects[addr].header.marked,
        state.after_collect().objects[addr].header.size == state.objects[addr].header.size,
        state.after_collect().objects[addr].total == state.objects[addr].total,
{
    assert(marked_from(state.objects, state.roots).contains_key(addr));
}

/// A collection frees exactly the tracked objects whose address is no root:
/// none of them is tracked afterwards, every other object is, and the number
/// of tracked objects goes down by their number.
pub proof fn lemma_unrooted_are_freed(state: GcState)
    requires
        state.inv(),
    ensures
        forall|a: usize|
            state.after_collect().objects.contains_key(a) <==> state.objects.contains_key(a)
                && state.roots.contains(a),
        state.unreachable().finite(),
        state.after_collect().objects.dom().len() == state.objects.dom().len() - state.unreachable().len(),
{
    let after = state.after_collect().objects.dom();
    let gone = state.unreachable();
    assert forall|a: usize| after.contains(a) <==> state.objects.contains_key(a) && state.roots.contains(
        a,
    ) by {
        assert(marked_from(state.objects, state.roots).contains_key(a) == state.objects.contains_key(a));
    }
    assert(after.subset_of(state.objects.dom()));
    assert(gone.subset_of(state.objects.dom()));
    lemma_set_subset_finite(state.objects.dom(), after);
    lemma_set_subset_finite(state.objects.dom(), gone);
    lemma_set_disjoint_lens(after, gone);
    assert(after.disjoint(gone));
    assert(after + gone =~= state.objects.dom());
}

/// A second collection right after a collection changes nothing.
pub proof fn lemma_collect_again(state: GcState)
    requires
        state.inv(),
    ensures
        state.after_collect().after_collect() == state.after_collect(),
{
    let once = state.after_collect();
    let marked = marked_from(once.objects, once.roots);
    assert(marked_from(state.objects, state.roots).dom() =~= state.objects.dom());
    assert(marked =~= once.objects);
    assert(marked_part(marked) =~= once.objects);
    lemma_sum_of_none(unmarked_part(marked), (usize::MAX + 1) as nat);
}

/// The bytes that a collection frees are the difference of the totals before
/// and after it. They are 0 where every tracked object is a root, and more
/// than 0 where one is not.
pub proof fn lemma_freed_bytes(state: GcState)
    requires
        state.inv(),
    ensures
        state.unreachable_bytes() == state.total_allocated - state.after_collect().total_allocated,
        state.unreachable() == Set::<usize>::empty() ==> state.unreachable_bytes() == 0,
        state.unreachable() != Set::<usize>::empty() ==> state.unreachable_bytes() > 0,
{
    let bound = (usize::MAX + 1) as nat;
    let gone = unmarked_part(marked_from(state.objects, state.roots));
    if state.unreachable() == Set::<usize>::empty() {
        assert forall|a: usize| !gone.contains_key(a) by {
            if gone.contains_key(a) {
                assert(state.unreachable().contains(a));
            }
        }
        lemma_sum_of_none(gone, bound);
    } else {
        assert(exists|a: usize| state.unreachable().contains(a)) by {
            if forall|a: usize| !state.unreachable().contains(a) {
                assert(state.unreachable() =~= Set::<usize>::empty());
            }
        }
        let a = choose|a: usize| state.unreachable().contains(a);
        assert(state.objects.contains_key(a));
        assert(gone.contains_key(a));
        lemma_sum_covers(gone, a, bound);
        lemma_align_up_is_least(HEADER_SIZE + state.objects[a].header.size, 8);
    }
}

} // verus!
