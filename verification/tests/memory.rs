use pain_runtime::memory::is_power_of_two;
use pain_runtime::memory::next_power_of_two;
use pain_runtime::memory::round_up;
use pain_runtime::memory::Block;

#[test]
fn power_of_two_is_told_apart() {
    assert!(!is_power_of_two(0));
    assert!(is_power_of_two(1));
    assert!(is_power_of_two(2));
    assert!(!is_power_of_two(3));
    assert!(is_power_of_two(64));
    assert!(!is_power_of_two(96));
    assert!(is_power_of_two(1 << 31));
    assert!(!is_power_of_two(usize::MAX));
}

#[test]
fn next_power_of_two_is_least() {
    assert_eq!(next_power_of_two(0), Some(1));
    assert_eq!(next_power_of_two(1), Some(1));
    assert_eq!(next_power_of_two(2), Some(2));
    assert_eq!(next_power_of_two(3), Some(4));
    assert_eq!(next_power_of_two(8), Some(8));
    assert_eq!(next_power_of_two(9), Some(16));
    assert_eq!(next_power_of_two(24), Some(32));
    assert_eq!(next_power_of_two(1000), Some(1024));
}

#[test]
fn next_power_of_two_agrees_with_std() {
    for n in 0..5000usize {
        assert_eq!(next_power_of_two(n), Some(n.next_power_of_two()));
        assert_eq!(is_power_of_two(n), n.is_power_of_two());
    }
}

#[test]
fn next_power_of_two_that_does_not_fit() {
    let top = 1usize << (usize::BITS - 1);
    assert_eq!(next_power_of_two(top), Some(top));
    assert_eq!(next_power_of_two(top + 1), None);
    assert_eq!(next_power_of_two(usize::MAX), None);
}

#[test]
fn round_up_by_mask() {
    assert_eq!(round_up(0, 8), Some(0));
    assert_eq!(round_up(1, 8), Some(8));
    assert_eq!(round_up(8, 8), Some(8));
    assert_eq!(round_up(9, 8), Some(16));
    assert_eq!(round_up(4106, 8), Some(4112));
    assert_eq!(round_up(4106, 1), Some(4106));
    assert_eq!(round_up(4097, 4096), Some(8192));
}

#[test]
fn round_up_by_remainder() {
    assert_eq!(round_up(0, 12), Some(0));
    assert_eq!(round_up(1, 12), Some(12));
    assert_eq!(round_up(24, 12), Some(24));
    assert_eq!(round_up(25, 12), Some(36));
    assert_eq!(round_up(100, 7), Some(105));
    assert_eq!(round_up(4116, 12), Some(4116));
}

#[test]
fn round_up_agrees_with_next_multiple() {
    for align in 1..40usize {
        for addr in 0..200usize {
            let expected = addr.div_ceil(align) * align;
            assert_eq!(round_up(addr, align), Some(expected));
        }
    }
}

#[test]
fn round_up_refuses_zero_alignment_and_overflow() {
    assert_eq!(round_up(16, 0), None);
    assert_eq!(round_up(usize::MAX, 8), None);
    assert_eq!(round_up(usize::MAX - 6, 8), None);
    assert_eq!(round_up(usize::MAX - 7, 8), Some(usize::MAX - 7));
    assert_eq!(round_up(usize::MAX, 1), Some(usize::MAX));
    assert_eq!(round_up(usize::MAX - 1, 3), Some(usize::MAX));
}

#[test]
fn block_is_placed_at_first_multiple() {
    let block = Block::place(Vec::new(), 4097, 100, 8).unwrap();
    assert_eq!(block.address(), 4104);
    assert_eq!(block.len(), 100);
    let block = Block::place(Vec::new(), 4096, 64, 64).unwrap();
    assert_eq!(block.address(), 4096);
    let block = Block::place(Vec::new(), 4100, 64, 64).unwrap();
    assert_eq!(block.address(), 4160);
}

#[test]
fn block_is_not_placed_where_it_cannot_lie() {
    assert!(Block::place(Vec::new(), 4096, 0, 8).is_none());
    assert!(Block::place(Vec::new(), 4096, 16, 0).is_none());
    assert!(Block::place(Vec::new(), 0, 16, 8).is_none());
    assert!(Block::place(Vec::new(), usize::MAX - 3, 16, 8).is_none());
    assert!(Block::place(Vec::new(), usize::MAX - 15, 16, 8).is_none());
    assert!(Block::place(Vec::new(), usize::MAX - 23, 16, 8).is_some());
    assert!(Block::place(Vec::new(), 1, 16, 8).is_some());
}

#[test]
fn reserved_block_is_aligned() {
    for align in [1usize, 2, 8, 64, 4096] {
        let block = Block::reserve(1000, align).unwrap();
        assert_ne!(block.address(), 0);
        assert_eq!(block.address() % align, 0);
        assert_eq!(block.len(), 1000);
    }
}

#[test]
fn reserved_blocks_do_not_overlap() {
    let a = Block::reserve(256, 8).unwrap();
    let b = Block::reserve(256, 8).unwrap();
    assert!(a.address() + a.len() <= b.address() || b.address() + b.len() <= a.address());
}

#[test]
fn request_that_does_not_fit_is_refused() {
    assert!(Block::reserve(0, 8).is_none());
    assert!(Block::reserve(16, 0).is_none());
    assert!(Block::reserve(usize::MAX, 8).is_none());
    assert!(Block::reserve(isize::MAX as usize, 8).is_none());
    assert!(Block::reserve((isize::MAX as usize) - 6, 8).is_none());
    assert!(Block::reserve(16, usize::MAX).is_none());
}
