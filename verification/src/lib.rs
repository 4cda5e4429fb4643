//! Memory-management core of a small managed-language runtime: a linear
//! allocator, a pool of fixed-size slots, an arena over both, and a
//! mark-and-sweep collector.

pub mod allocator;
pub mod gc;
pub mod memory;
pub mod runtime;

pub use allocator::{Arena, BumpAllocator};
pub use gc::GarbageCollector;
pub use runtime::Runtime;
