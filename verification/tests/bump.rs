use rust_kernel::allocator::bump::BumpAllocator;
use rust_kernel::allocator::Layout;

fn layout(size: usize, align: usize) -> Layout {
    Layout { size, align }
}

#[test]
fn bump_new_is_empty() {
    let bump = BumpAllocator::new(0x1000, 0x100);
    assert_eq!(bump.heap_start(), 0x1000);
    assert_eq!(bump.heap_end(), 0x1100);
    assert_eq!(bump.next(), 0x1000);
    assert_eq!(bump.allocations(), 0);
}

#[test]
fn bump_allocations_follow_each_other() {
    let mut bump = BumpAllocator::new(0x1000, 0x100);
    assert_eq!(bump.allocate(layout(3, 1)), Some(0x1000));
    assert_eq!(bump.allocate(layout(8, 8)), Some(0x1008));
    assert_eq!(bump.allocate(layout(1, 1)), Some(0x1010));
    assert_eq!(bump.allocate(layout(32, 32)), Some(0x1020));
    assert_eq!(bump.next(), 0x1040);
    assert_eq!(bump.allocations(), 4);
}

#[test]
fn bump_allocations_never_overlap() {
    let mut bump = BumpAllocator::new(0x4000, 0x1000);
    let requests = [(1, 1), (7, 2), (16, 16), (3, 4), (100, 64), (0, 1), (9, 8)];
    let mut blocks: Vec<(usize, usize)> = Vec::new();
    for (size, align) in requests {
        let addr = bump.allocate(layout(size, align)).unwrap();
        assert_eq!(addr % align, 0);
        assert!(addr >= 0x4000 && addr + size <= 0x5000);
        for (start, len) in &blocks {
            assert!(start + len <= addr);
        }
        blocks.push((addr, size));
    }
}

#[test]
fn bump_frees_reclaim_the_region() {
    let mut bump = BumpAllocator::new(0x1000, 0x100);
    let a = bump.allocate(layout(8, 8)).unwrap();
    let b = bump.allocate(layout(16, 8)).unwrap();
    let c = bump.allocate(layout(4, 4)).unwrap();
    bump.deallocate(b, layout(16, 8));
    assert_eq!(bump.next(), 0x101c);
    bump.deallocate(c, layout(4, 4));
    assert_eq!(bump.next(), 0x101c);
    assert_eq!(bump.allocations(), 1);
    bump.deallocate(a, layout(8, 8));
    assert_eq!(bump.next(), 0x1000);
    assert_eq!(bump.allocations(), 0);
    assert_eq!(bump.allocate(layout(8, 8)), Some(0x1000));
}

#[test]
fn bump_fails_without_changing() {
    let mut bump = BumpAllocator::new(0x1000, 0x20);
    assert_eq!(bump.allocate(layout(0x18, 8)), Some(0x1000));
    assert_eq!(bump.allocate(layout(0x10, 8)), None);
    assert_eq!(bump.next(), 0x1018);
    assert_eq!(bump.allocations(), 1);
    assert_eq!(bump.allocate(layout(8, 8)), Some(0x1018));
    assert_eq!(bump.allocate(layout(1, 1)), None);
    assert_eq!(bump.allocate(layout(0, 1)), Some(0x1020));
    assert_eq!(bump.next(), 0x1020);
}

#[test]
fn bump_refuses_a_bad_alignment_and_overflow() {
    let mut bump = BumpAllocator::new(0x1000, 0x100);
    assert_eq!(bump.allocate(layout(8, 3)), None);
    assert_eq!(bump.allocate(layout(8, 0)), None);
    assert_eq!(bump.allocate(layout(usize::MAX, 1)), None);
    assert_eq!(bump.next(), 0x1000);
    assert_eq!(bump.allocations(), 0);
}
