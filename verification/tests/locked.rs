use rust_kernel::allocator::arena::Arena;
use rust_kernel::allocator::bump::BumpAllocator;
use rust_kernel::allocator::fixed_size_block::FixedSizeBlockAllocator;
use rust_kernel::allocator::linked_list::LinkedListAllocator;
use rust_kernel::allocator::Layout;

fn is_send<T: Send>() {}

#[test]
fn allocators_can_be_shared_behind_a_lock() {
    is_send::<BumpAllocator>();
    is_send::<LinkedListAllocator<Arena>>();
    is_send::<FixedSizeBlockAllocator<Arena>>();
}

#[test]
fn lock_is_free_again_after_every_call() {
    let locked = spin::Mutex::new(FixedSizeBlockAllocator::<Arena>::new());
    // a failing call gives the lock back as a succeeding one does
    assert_eq!(locked.lock().allocate(Layout { size: 8, align: 8 }), None);
    assert!(locked.try_lock().is_some());
    locked.lock().init(0x10000, 0x1000);
    let block = locked.lock().allocate(Layout { size: 8, align: 8 });
    assert_eq!(block, Some(0x10000));
    assert!(locked.try_lock().is_some());
    locked.lock().deallocate(0x10000, Layout { size: 8, align: 8 });
    assert!(locked.try_lock().is_some());
    assert_eq!(locked.lock().allocate(Layout { size: 8, align: 8 }), Some(0x10000));
}

#[test]
fn lock_is_not_reentrant() {
    let locked = spin::Mutex::new(BumpAllocator::new(0x1000, 0x100));
    let guard = locked.lock();
    // while the lock is held, it cannot be had a second time
    assert!(locked.try_lock().is_none());
    drop(guard);
    assert_eq!(locked.lock().allocate(Layout { size: 1, align: 1 }), Some(0x1000));
}
