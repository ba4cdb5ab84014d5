use rust_kernel::allocator::{align_up, Dummy, Layout, LayoutError};

#[test]
fn align_ptr() {
    assert_eq!(align_up(0x1000, 0x1000), Some(0x1000));
    assert_eq!(align_up(0x1010, 0x100), Some(0x1100));
    assert_eq!(align_up(0x1010, 0x11), None);
    assert_eq!(align_up(usize::MAX, 0x10), None);
}

#[test]
fn align_up_keeps_an_aligned_address() {
    assert_eq!(align_up(0, 8), Some(0));
    assert_eq!(align_up(64, 1), Some(64));
    assert_eq!(align_up(usize::MAX, 1), Some(usize::MAX));
}

#[test]
fn align_up_gives_the_least_multiple() {
    for align_log in 0..12 {
        let align = 1usize << align_log;
        for addr in 0..300usize {
            let aligned = align_up(addr, align).unwrap();
            assert!(aligned >= addr);
            assert!(aligned < addr + align);
            assert_eq!(aligned % align, 0);
        }
    }
}

#[test]
fn align_up_refuses_what_is_no_power_of_two() {
    assert_eq!(align_up(16, 0), None);
    assert_eq!(align_up(16, 3), None);
    assert_eq!(align_up(16, 24), None);
    assert_eq!(align_up(0, usize::MAX), None);
}

#[test]
fn align_up_refuses_overflow() {
    let top = 1usize << (usize::BITS - 1);
    assert_eq!(align_up(top, top), Some(top));
    assert_eq!(align_up(top + 1, top), None);
    assert_eq!(align_up(usize::MAX - 6, 8), None);
    assert_eq!(align_up(usize::MAX - 7, 8), Some(usize::MAX - 7));
}

#[test]
fn layout_from_size_align() {
    assert_eq!(Layout::from_size_align(4, 4), Ok(Layout { size: 4, align: 4 }));
    assert_eq!(Layout::from_size_align(0, 1), Ok(Layout { size: 0, align: 1 }));
    assert_eq!(Layout::from_size_align(4, 3), Err(LayoutError));
    assert_eq!(Layout::from_size_align(4, 0), Err(LayoutError));
    let max = isize::MAX as usize;
    assert_eq!(Layout::from_size_align(max, 1), Ok(Layout { size: max, align: 1 }));
    assert_eq!(Layout::from_size_align(max, 2), Err(LayoutError));
    assert_eq!(Layout::from_size_align(max - 1, 2), Ok(Layout { size: max - 1, align: 2 }));
    assert_eq!(Layout::from_size_align(max + 1, 1), Err(LayoutError));
    let layout = Layout::from_size_align(24, 8).unwrap();
    assert_eq!(layout.size(), 24);
    assert_eq!(layout.align(), 8);
}

#[test]
fn dummy_serves_nothing() {
    assert_eq!(Dummy.allocate(Layout { size: 1, align: 1 }), None);
    assert_eq!(Dummy.allocate(Layout { size: 0, align: 8 }), None);
}
