use rust_kernel::allocator::bootstrap::{
    page_containing, HeapInit, InitAction, InitEvent, InitState, MapToError, PAGE_SIZE,
};
use rust_kernel::allocator::{HEAP_SIZE, HEAP_START};

#[test]
fn page_containing_rounds_down() {
    assert_eq!(page_containing(0), 0);
    assert_eq!(page_containing(4095), 0);
    assert_eq!(page_containing(4096), 4096);
    assert_eq!(page_containing(0x4444_4444_0123), 0x4444_4444_0000);
    assert_eq!(page_containing(u64::MAX), u64::MAX - 4095);
}

#[test]
fn heap_init_maps_every_page_then_initializes() {
    let mut init = HeapInit::new(HEAP_START, HEAP_SIZE as u64);
    assert!(init.can_begin());
    let mut action = init.step(InitEvent::Begin).unwrap();
    let pages = HEAP_SIZE as u64 / PAGE_SIZE;
    for number in 0..pages {
        assert_eq!(action, InitAction::AllocateFrame);
        let page = HEAP_START + number * PAGE_SIZE;
        assert_eq!(init.state, InitState::AwaitFrame { page });
        let frame = 0x10_0000 + number * PAGE_SIZE;
        action = init.step(InitEvent::Frame(Some(frame))).unwrap();
        assert_eq!(action, InitAction::MapTo { page, frame, flags: 3 });
        // an event that the run does not wait for changes nothing
        assert_eq!(init.step(InitEvent::Begin), None);
        assert_eq!(init.step(InitEvent::AllocatorReady), None);
        assert_eq!(init.state, InitState::AwaitMap { page });
        action = init.step(InitEvent::Mapped(Ok(()))).unwrap();
    }
    assert_eq!(
        action,
        InitAction::InitAllocator { heap_start: HEAP_START, heap_size: HEAP_SIZE as u64 }
    );
    assert_eq!(init.state, InitState::AwaitAllocator);
    action = init.step(InitEvent::AllocatorReady).unwrap();
    assert_eq!(action, InitAction::Return(Ok(())));
    assert_eq!(init.state, InitState::Done);
    assert_eq!(init.step(InitEvent::AllocatorReady), None);
    assert_eq!(init.step(InitEvent::Begin), None);
}

#[test]
fn heap_init_covers_a_heap_that_straddles_pages() {
    // two bytes, one on each side of a page boundary
    let mut init = HeapInit::new(0x1fff, 2);
    assert_eq!(init.step(InitEvent::Begin), Some(InitAction::AllocateFrame));
    assert_eq!(
        init.step(InitEvent::Frame(Some(0x5000))),
        Some(InitAction::MapTo { page: 0x1000, frame: 0x5000, flags: 3 })
    );
    assert_eq!(init.step(InitEvent::Mapped(Ok(()))), Some(InitAction::AllocateFrame));
    assert_eq!(
        init.step(InitEvent::Frame(Some(0x9000))),
        Some(InitAction::MapTo { page: 0x2000, frame: 0x9000, flags: 3 })
    );
    assert_eq!(
        init.step(InitEvent::Mapped(Ok(()))),
        Some(InitAction::InitAllocator { heap_start: 0x1fff, heap_size: 2 })
    );
}

#[test]
fn heap_init_fails_fast_without_a_frame() {
    let mut init = HeapInit::new(HEAP_START, HEAP_SIZE as u64);
    init.step(InitEvent::Begin);
    init.step(InitEvent::Frame(Some(0x1000)));
    init.step(InitEvent::Mapped(Ok(())));
    assert_eq!(
        init.step(InitEvent::Frame(None)),
        Some(InitAction::Return(Err(MapToError::FrameAllocationFailed)))
    );
    assert_eq!(init.state, InitState::Done);
}

#[test]
fn heap_init_fails_fast_on_a_mapped_page() {
    let mut init = HeapInit::new(HEAP_START, HEAP_SIZE as u64);
    init.step(InitEvent::Begin);
    init.step(InitEvent::Frame(Some(0x1000)));
    assert_eq!(
        init.step(InitEvent::Mapped(Err(MapToError::PageAlreadyMapped(0x7000)))),
        Some(InitAction::Return(Err(MapToError::PageAlreadyMapped(0x7000))))
    );
    assert_eq!(init.state, InitState::Done);
    let mut other = HeapInit::new(HEAP_START, HEAP_SIZE as u64);
    other.step(InitEvent::Begin);
    other.step(InitEvent::Frame(Some(0x1000)));
    assert_eq!(
        other.step(InitEvent::Mapped(Err(MapToError::ParentEntryHugePage))),
        Some(InitAction::Return(Err(MapToError::ParentEntryHugePage)))
    );
}

#[test]
fn heap_init_cannot_begin_on_an_empty_or_overflowing_heap() {
    assert!(!HeapInit::new(0x1000, 0).can_begin());
    assert!(!HeapInit::new(u64::MAX, 2).can_begin());
    assert!(HeapInit::new(u64::MAX, 1).can_begin());
    let mut init = HeapInit::new(0x1000, 1);
    init.step(InitEvent::Begin);
    assert!(!init.can_begin());
}
