use pain_runtime::gc::GarbageCollector;
use pain_runtime::gc::GcObject;
use pain_runtime::gc::DEFAULT_THRESHOLD;
use pain_runtime::gc::HEADER_SIZE;
use pain_runtime::memory::Block;

fn track_at(gc: &mut GarbageCollector, base: usize, size: usize) -> Option<GcObject> {
    let total = (HEADER_SIZE + size).div_ceil(8) * 8;
    gc.track(Block::place(Vec::new(), base, total, 8).unwrap(), size)
}

#[test]
fn test_gc_basic() {
    let mut gc = GarbageCollector::with_threshold(1024);

    // Allocate some objects
    let obj1 = gc.allocate(64).unwrap();
    let obj2 = gc.allocate(128).unwrap();

    // Register as roots
    gc.add_root(obj1.data_ptr());
    gc.add_root(obj2.data_ptr());

    // Mark and sweep should keep both
    gc.collect();

    let (allocated, total, live) = gc.stats();
    assert!(allocated > 0);
    assert_eq!(total, 2);
    assert_eq!(live, 2);
}

#[test]
fn test_gc_collect_unreachable() {
    let mut gc = GarbageCollector::with_threshold(1024);

    // Allocate objects
    let obj1 = gc.allocate(64).unwrap();
    let _obj2 = gc.allocate(128).unwrap();

    // Only register obj1 as root
    gc.add_root(obj1.data_ptr());

    // Collect should free obj2
    gc.collect();

    let (_, total, live) = gc.stats();
    assert_eq!(total, 1);
    assert_eq!(live, 1);
}

#[test]
fn new_collector_is_empty() {
    assert_eq!(GarbageCollector::new().stats(), (0, 0, 0));
    assert_eq!(GarbageCollector::with_threshold(7).stats(), (0, 0, 0));
    assert_eq!(GarbageCollector::default().stats(), (0, 0, 0));
    assert_eq!(DEFAULT_THRESHOLD, 1024 * 1024);
    assert_eq!(HEADER_SIZE, 16);
}

#[test]
fn allocation_counts_header_and_rounds_to_eight() {
    let mut gc = GarbageCollector::new();
    let a = gc.allocate(64).unwrap();
    assert_eq!(gc.stats(), (80, 1, 0));
    let b = gc.allocate(128).unwrap();
    assert_eq!(gc.stats(), (224, 2, 0));
    let c = gc.allocate(1).unwrap();
    assert_eq!(gc.stats(), (248, 3, 0));
    let d = gc.allocate(0).unwrap();
    assert_eq!(gc.stats(), (264, 4, 0));
    let e = gc.allocate(9).unwrap();
    assert_eq!(gc.stats(), (296, 5, 0));
    assert_eq!((a.size(), b.size(), c.size(), d.size(), e.size()), (64, 128, 1, 0, 9));
    for object in [a, b, c, d, e] {
        assert_ne!(object.data_ptr(), 0);
        assert_eq!(object.data_ptr() % 8, 0);
        assert!(!object.is_marked());
    }
}

#[test]
fn allocation_that_does_not_fit_fails() {
    let mut gc = GarbageCollector::new();
    let kept = gc.allocate(8).unwrap();
    gc.add_root(kept.data_ptr());
    assert!(gc.allocate(usize::MAX).is_none());
    assert!(gc.allocate(usize::MAX - HEADER_SIZE).is_none());
    assert!(gc.allocate(isize::MAX as usize).is_none());
    assert_eq!(gc.stats(), (24, 1, 0));
}

#[test]
fn handle_carries_its_own_mark() {
    let mut gc = GarbageCollector::new();
    let mut object = gc.allocate(40).unwrap();
    let addr = object.data_ptr();
    assert!(!object.is_marked());
    object.mark();
    assert!(object.is_marked());
    assert_eq!(object.data_ptr(), addr);
    assert_eq!(object.size(), 40);
    // The collector goes by its roots, not by the handle.
    assert_eq!(gc.stats(), (56, 1, 0));
    assert_eq!(gc.force_collect(), 56);
    assert_eq!(gc.stats(), (0, 0, 0));
}

#[test]
fn object_is_tracked_behind_its_header() {
    let mut gc = GarbageCollector::new();
    let object = track_at(&mut gc, 0x2000, 64).unwrap();
    assert_eq!(object.data_ptr(), 0x2010);
    assert_eq!(object.size(), 64);
    assert!(!object.is_marked());
    assert_eq!(gc.stats(), (80, 1, 0));
    let object = track_at(&mut gc, 0x3001, 3).unwrap();
    assert_eq!(object.data_ptr(), 0x3018);
    assert_eq!(gc.stats(), (104, 2, 0));
}

#[test]
fn tracked_address_is_not_tracked_twice() {
    let mut gc = GarbageCollector::new();
    assert!(track_at(&mut gc, 0x2000, 64).is_some());
    assert!(track_at(&mut gc, 0x2000, 64).is_none());
    assert!(track_at(&mut gc, 0x2000, 8).is_none());
    assert_eq!(gc.stats(), (80, 1, 0));
    assert_eq!(gc.force_collect(), 80);
    assert!(track_at(&mut gc, 0x2000, 8).is_some());
    assert_eq!(gc.stats(), (24, 1, 0));
}

#[test]
fn collect_subtracts_bytes_of_unrooted_object() {
    let mut gc = GarbageCollector::with_threshold(1024);
    let obj1 = gc.allocate(64).unwrap();
    let _obj2 = gc.allocate(128).unwrap();
    assert_eq!(gc.stats(), (224, 2, 0));
    gc.add_root(obj1.data_ptr());
    gc.collect();
    assert_eq!(gc.stats(), (80, 1, 1));
}

#[test]
fn marking_marks_exactly_the_roots() {
    let mut gc = GarbageCollector::new();
    track_at(&mut gc, 0x2000, 8);
    track_at(&mut gc, 0x3000, 8);
    track_at(&mut gc, 0x4000, 8);
    gc.add_root(0x2010);
    gc.add_root(0x4010);
    gc.mark_phase();
    assert_eq!(gc.stats(), (72, 3, 2));
    gc.remove_root(0x2010);
    gc.add_root(0x3010);
    // The marks are those of the last marking until the next one.
    assert_eq!(gc.stats(), (72, 3, 2));
    gc.sweep_phase();
    assert_eq!(gc.stats(), (48, 2, 2));
    gc.mark_phase();
    assert_eq!(gc.stats(), (48, 2, 1));
    gc.sweep_phase();
    assert_eq!(gc.stats(), (24, 1, 1));
    gc.add_root(0x2010);
    gc.collect();
    assert_eq!(gc.stats(), (24, 1, 1));
}

#[test]
fn sweeping_frees_every_unmarked_object() {
    let mut gc = GarbageCollector::new();
    track_at(&mut gc, 0x2000, 8);
    track_at(&mut gc, 0x3000, 100);
    gc.add_root(0x2010);
    gc.add_root(0x3010);
    // Nothing is marked before the first marking.
    gc.sweep_phase();
    assert_eq!(gc.stats(), (0, 0, 0));
}

#[test]
fn rooted_object_survives_every_collection() {
    let mut gc = GarbageCollector::new();
    let kept = gc.allocate(100).unwrap();
    gc.add_root(kept.data_ptr());
    for round in 0..10usize {
        let dropped = gc.allocate(round * 8).unwrap();
        assert_eq!(gc.stats().1, 2);
        assert_eq!(gc.force_collect(), HEADER_SIZE + round * 8);
        assert_eq!(gc.stats(), (120, 1, 1));
        assert_ne!(dropped.data_ptr(), kept.data_ptr());
        gc.collect();
        assert_eq!(gc.stats(), (120, 1, 1));
    }
}

#[test]
fn force_collect_returns_freed_bytes() {
    let mut gc = GarbageCollector::new();
    assert_eq!(gc.force_collect(), 0);
    let a = gc.allocate(64).unwrap();
    let b = gc.allocate(128).unwrap();
    let _c = gc.allocate(3).unwrap();
    let _d = gc.allocate(1000).unwrap();
    gc.add_root(a.data_ptr());
    gc.add_root(b.data_ptr());
    assert_eq!(gc.force_collect(), 24 + 1016);
    assert_eq!(gc.stats(), (224, 2, 2));
    assert_eq!(gc.force_collect(), 0);
    gc.remove_root(b.data_ptr());
    assert_eq!(gc.force_collect(), 144);
    assert_eq!(gc.stats(), (80, 1, 1));
    gc.remove_root(a.data_ptr());
    assert_eq!(gc.force_collect(), 80);
    assert_eq!(gc.stats(), (0, 0, 0));
    assert_eq!(gc.force_collect(), 0);
}

#[test]
fn roots_are_a_set() {
    let mut gc = GarbageCollector::new();
    let object = gc.allocate(16).unwrap();
    gc.add_root(object.data_ptr());
    gc.add_root(object.data_ptr());
    gc.remove_root(object.data_ptr());
    assert_eq!(gc.force_collect(), 32);
    gc.remove_root(object.data_ptr());
    gc.remove_root(12345);
    assert_eq!(gc.stats(), (0, 0, 0));
}

#[test]
fn stale_root_is_passed_over() {
    let mut gc = GarbageCollector::new();
    gc.add_root(8);
    gc.add_root(0);
    gc.add_root(usize::MAX);
    let object = gc.allocate(16).unwrap();
    gc.add_root(object.data_ptr() + 8);
    gc.collect();
    assert_eq!(gc.stats(), (0, 0, 0));
    let object = gc.allocate(16).unwrap();
    gc.add_root(object.data_ptr());
    gc.collect();
    assert_eq!(gc.stats(), (32, 1, 1));
}

#[test]
fn allocation_collects_once_threshold_is_reached() {
    let mut gc = GarbageCollector::with_threshold(100);
    let first = gc.allocate(64).unwrap();
    gc.add_root(first.data_ptr());
    assert_eq!(gc.stats(), (80, 1, 0));
    // 80 bytes are below the threshold: no collection yet.
    let _second = gc.allocate(4).unwrap();
    assert_eq!(gc.stats(), (104, 2, 0));
    // 104 bytes have reached it: the unrooted object goes first.
    let _third = gc.allocate(8).unwrap();
    assert_eq!(gc.stats(), (104, 2, 1));
    let _fourth = gc.allocate(8).unwrap();
    assert_eq!(gc.stats(), (104, 2, 1));
}

#[test]
fn threshold_of_zero_collects_before_every_allocation() {
    let mut gc = GarbageCollector::with_threshold(0);
    for _ in 0..5 {
        let _object = gc.allocate(32).unwrap();
        assert_eq!(gc.stats(), (48, 1, 0));
    }
}

#[test]
fn allocation_that_exhausts_memory_collects_and_fails() {
    let mut gc = GarbageCollector::new();
    let kept = gc.allocate(8).unwrap();
    let _dropped = gc.allocate(8).unwrap();
    gc.add_root(kept.data_ptr());
    assert_eq!(gc.stats(), (48, 2, 0));
    assert!(gc.allocate((isize::MAX as usize) - 31).is_none());
    // The failed request has run a collection before it was made again.
    assert_eq!(gc.stats(), (24, 1, 1));
}
