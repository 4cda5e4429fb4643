use pain_runtime::runtime::DEFAULT_ARENA_SIZE;
use pain_runtime::Arena;
use pain_runtime::BumpAllocator;
use pain_runtime::GarbageCollector;
use pain_runtime::Runtime;

#[test]
fn test_runtime() {
    let mut rt = Runtime::new().unwrap();
    let ptr = rt.allocate(64, 8);
    assert!(ptr.is_some());

    // The request is served by a pool, which the statistics do not count.
    let (used, capacity) = rt.memory_stats();
    assert_eq!(used, 0);
    assert!(capacity > 0);
}

#[test]
fn new_runtime_has_one_mebibyte() {
    let rt = Runtime::new().unwrap();
    assert_eq!(DEFAULT_ARENA_SIZE, 1024 * 1024);
    assert_eq!(rt.memory_stats(), (0, 1024 * 1024));
    assert_eq!(rt.gc_stats(), (0, 0, 0));
}

#[test]
fn runtime_with_arena_size() {
    let mut rt = Runtime::with_arena_size(4096).unwrap();
    assert_eq!(rt.memory_stats(), (0, 4096));
    let addr = rt.allocate(1000, 16).unwrap();
    assert_eq!(addr % 16, 0);
    let (used, capacity) = rt.memory_stats();
    assert!(1000 <= used && used < 1016);
    assert_eq!(capacity, 4096);
    assert_eq!(rt.allocate(5000, 8).map(|a| a % 8), Some(0));
    assert_eq!(rt.memory_stats().1, 4096 + 10000);
    rt.reset();
    assert_eq!(rt.memory_stats(), (0, 4096 + 10000));
    assert_eq!(rt.allocate(1000, 16), Some(addr));
}

#[test]
fn runtime_reports_arena_errors() {
    assert_eq!(Runtime::with_arena_size(0).err(), Some("Allocator size must be greater than 0"));
    assert_eq!(Runtime::with_arena_size(usize::MAX).err(), Some("Invalid layout"));
}

#[test]
fn runtime_collects() {
    let mut rt = Runtime::with_gc_threshold(64).unwrap();
    assert_eq!(rt.memory_stats(), (0, 1024 * 1024));
    assert_eq!(rt.gc_stats(), (0, 0, 0));
    assert_eq!(rt.collect_garbage(), 0);
    rt.gc_collect();
    assert_eq!(rt.gc_stats(), (0, 0, 0));
}

#[test]
fn runtime_from_parts() {
    let mut gc = GarbageCollector::with_threshold(1024);
    let kept = gc.allocate(64).unwrap();
    let _dropped = gc.allocate(128).unwrap();
    gc.add_root(kept.data_ptr());
    let arena = Arena::from_parts(BumpAllocator::new(512).unwrap(), Vec::new());
    let mut rt = Runtime::from_parts(arena, gc);
    assert_eq!(rt.gc_stats(), (224, 2, 0));
    assert_eq!(rt.memory_stats(), (0, 512));
    assert!(rt.allocate(64, 8).is_some());
    assert_eq!(rt.memory_stats(), (64, 512));
    assert_eq!(rt.collect_garbage(), 144);
    assert_eq!(rt.gc_stats(), (80, 1, 1));
    rt.gc_collect();
    assert_eq!(rt.gc_stats(), (80, 1, 1));
    assert_eq!(rt.collect_garbage(), 0);
    assert_eq!(rt.memory_stats(), (64, 512));
}

#[test]
fn runtime_reports_exhausted_memory() {
    let most = (isize::MAX as usize) - 7;
    assert_eq!(Runtime::with_arena_size(most).err(), Some("Failed to allocate memory"));
}
