use rust_kernel::allocator::arena::Arena;
use rust_kernel::allocator::fixed_size_block::{list_index, FixedSizeBlockAllocator, BLOCK_SIZES};
use rust_kernel::allocator::{Layout, HEAP_SIZE, HEAP_START};

fn layout(size: usize, align: usize) -> Layout {
    Layout { size, align }
}

fn heap(start: usize, size: usize) -> FixedSizeBlockAllocator<Arena> {
    let mut allocator = FixedSizeBlockAllocator::new();
    allocator.init(start, size);
    allocator
}

#[test]
fn list_index_picks_the_smallest_class() {
    assert_eq!(list_index(&layout(0, 1)), Some(0));
    assert_eq!(list_index(&layout(8, 8)), Some(0));
    assert_eq!(list_index(&layout(9, 1)), Some(1));
    assert_eq!(list_index(&layout(1, 16)), Some(1));
    assert_eq!(list_index(&layout(17, 4)), Some(2));
    assert_eq!(list_index(&layout(100, 8)), Some(4));
    assert_eq!(list_index(&layout(8, 512)), Some(6));
    assert_eq!(list_index(&layout(2048, 8)), Some(8));
    assert_eq!(list_index(&layout(2049, 8)), None);
    assert_eq!(list_index(&layout(8, 4096)), None);
    for (index, size) in BLOCK_SIZES.iter().enumerate() {
        assert_eq!(list_index(&layout(*size, 1)), Some(index));
        assert_eq!(list_index(&layout(1, *size)), Some(index));
    }
}

#[test]
fn fixed_blocks_are_aligned_to_their_size() {
    let mut allocator = heap(0x100000, 0x10000);
    for (index, size) in BLOCK_SIZES.iter().enumerate() {
        let request = layout(size - 1, 1);
        assert_eq!(list_index(&request), Some(index));
        let addr = allocator.allocate(request).unwrap();
        assert_eq!(addr % size, 0);
    }
}

#[test]
fn fixed_block_is_reused_by_its_class_only() {
    let mut allocator = heap(0x100000, 0x10000);
    let a = allocator.allocate(layout(24, 8)).unwrap();
    let b = allocator.allocate(layout(32, 8)).unwrap();
    allocator.deallocate(a, layout(24, 8));
    // other classes do not get the block
    let c = allocator.allocate(layout(16, 8)).unwrap();
    let d = allocator.allocate(layout(64, 8)).unwrap();
    assert!(c != a && d != a);
    assert!(c + 16 <= a || a + 32 <= c);
    assert!(d + 64 <= a || a + 32 <= d);
    // the same class does, whatever the size asked for
    assert_eq!(allocator.allocate(layout(17, 1)), Some(a));
    assert!(b != a);
}

#[test]
fn fixed_blocks_come_back_last_in_first_out() {
    let mut allocator = heap(0x100000, 0x10000);
    let a = allocator.allocate(layout(64, 64)).unwrap();
    let b = allocator.allocate(layout(64, 64)).unwrap();
    let c = allocator.allocate(layout(64, 64)).unwrap();
    allocator.deallocate(a, layout(64, 64));
    allocator.deallocate(c, layout(64, 64));
    allocator.deallocate(b, layout(64, 64));
    assert_eq!(allocator.allocate(layout(64, 64)), Some(b));
    assert_eq!(allocator.allocate(layout(64, 64)), Some(c));
    assert_eq!(allocator.allocate(layout(64, 64)), Some(a));
}

#[test]
fn fixed_large_requests_go_to_the_fallback_heap() {
    let mut allocator = heap(0x100000, 0x10000);
    let big = layout(5000, 8);
    let a = allocator.allocate(big).unwrap();
    assert_eq!(a, 0x100000);
    let b = allocator.allocate(layout(4096, 4096)).unwrap();
    assert_eq!(b % 4096, 0);
    assert!(b >= a + 5000);
    allocator.deallocate(a, big);
    // the fallback heap hands the chunk out again
    assert_eq!(allocator.allocate(big), Some(a));
    assert_eq!(allocator.allocate(layout(0x10000, 8)), None);
}

#[test]
fn fixed_uninitialized_serves_nothing() {
    let mut allocator: FixedSizeBlockAllocator<Arena> = FixedSizeBlockAllocator::new();
    assert_eq!(allocator.allocate(layout(8, 8)), None);
    assert_eq!(allocator.allocate(layout(4096, 8)), None);
}

#[test]
fn fixed_refuses_a_bad_alignment() {
    let mut allocator = heap(0x100000, 0x10000);
    assert_eq!(allocator.allocate(layout(5, 3)), None);
    assert_eq!(allocator.allocate(layout(5, 0)), None);
    assert_eq!(allocator.allocate(layout(5000, 24)), None);
    // nothing was taken
    assert_eq!(allocator.allocate(layout(0x10000, 8)), Some(0x100000));
}

#[test]
fn fixed_out_of_memory() {
    let mut allocator = heap(0x100000, 0x100);
    let mut served = 0;
    while allocator.allocate(layout(64, 64)).is_some() {
        served += 1;
    }
    assert_eq!(served, 4);
    assert_eq!(allocator.allocate(layout(8, 8)), None);
}

/// Initialize a 1 MiB region, allocate a boxed 4-byte value, grow a sequence to 500 elements,
/// free both: nothing runs out of memory and no two blocks overlap.
#[test]
fn box_and_growing_sequence() {
    let start = HEAP_START as usize;
    let mut allocator = heap(start, HEAP_SIZE);
    let boxed = layout(4, 4);
    let value = allocator.allocate(boxed).expect("out of memory");
    allocator.write(value, 41);

    let mut capacity = 4usize;
    let mut len = 0usize;
    let mut buffer = allocator.allocate(layout(8 * capacity, 8)).expect("out of memory");
    for element in 0..500usize {
        if len == capacity {
            let grown = allocator.allocate(layout(16 * capacity, 8)).expect("out of memory");
            assert!(grown + 16 * capacity <= buffer || buffer + 8 * capacity <= grown);
            assert!(grown + 16 * capacity <= value || value + 8 <= grown);
            for i in 0..len {
                let word = allocator.read(buffer + 8 * i);
                allocator.write(grown + 8 * i, word);
            }
            allocator.deallocate(buffer, layout(8 * capacity, 8));
            buffer = grown;
            capacity *= 2;
        }
        allocator.write(buffer + 8 * len, element);
        len += 1;
    }
    assert_eq!(len, 500);
    let mut sum = 0;
    for i in 0..len {
        sum += allocator.read(buffer + 8 * i);
    }
    assert_eq!(sum, 499 * 500 / 2);
    assert_eq!(allocator.read(value), 41);
    assert!(buffer >= start && buffer + 8 * capacity <= start + HEAP_SIZE);
    allocator.deallocate(buffer, layout(8 * capacity, 8));
    allocator.deallocate(value, boxed);
}

/// Allocate as many single-word boxes as the heap has bytes, one at a time, each freed before
/// the next: the block is reused and the heap never runs out.
#[test]
fn many_boxes() {
    let mut allocator = heap(HEAP_START as usize, HEAP_SIZE);
    let word = layout(8, 8);
    let first = allocator.allocate(word).expect("out of memory");
    allocator.deallocate(first, word);
    for i in 0..HEAP_SIZE {
        let x = allocator.allocate(word).expect("out of memory");
        assert_eq!(x, first);
        allocator.write(x, i);
        assert_eq!(allocator.read(x), i);
        allocator.deallocate(x, word);
    }
}

#[test]
fn simple_allocation() {
    let mut allocator = heap(HEAP_START as usize, HEAP_SIZE);
    let heap_value_1 = allocator.allocate(layout(4, 4)).unwrap();
    let heap_value_2 = allocator.allocate(layout(4, 4)).unwrap();
    allocator.write(heap_value_1, 41);
    allocator.write(heap_value_2, 13);
    assert_eq!(allocator.read(heap_value_1), 41);
    assert_eq!(allocator.read(heap_value_2), 13);
}

#[test]
fn large_vec() {
    let mut allocator = heap(HEAP_START as usize, HEAP_SIZE);
    let n = 1000usize;
    let vec = allocator.allocate(layout(8 * n, 8)).unwrap();
    for i in 0..n {
        allocator.write(vec + 8 * i, i);
    }
    let mut sum = 0;
    for i in 0..n {
        sum += allocator.read(vec + 8 * i);
    }
    assert_eq!(sum, (n - 1) * n / 2);
}

#[test]
fn fixed_live_blocks_stay_apart() {
    let mut allocator = heap(0x200000, 0x8000);
    let mut live: Vec<(usize, Layout, usize)> = Vec::new();
    let mut seed: usize = 987654321;
    for _ in 0..3000 {
        seed = seed.wrapping_mul(6364136223846793005).wrapping_add(1442695040888963407);
        let pick = (seed >> 33) % 7;
        if pick < 4 || live.is_empty() {
            let size = 1 + (seed >> 40) % 3000;
            let align = 1usize << ((seed >> 53) % 6);
            let request = layout(size, align);
            if let Some(addr) = allocator.allocate(request) {
                assert_eq!(addr % align, 0);
                if let Some(index) = list_index(&request) {
                    assert_eq!(addr % BLOCK_SIZES[index], 0);
                }
                assert!(addr >= 0x200000 && addr + size <= 0x208000);
                for (other, _, other_size) in &live {
                    assert!(addr + size <= *other || other + other_size <= addr);
                }
                allocator.write(addr & !7, addr);
                live.push((addr, request, size));
            }
        } else {
            let index = (seed >> 40) % live.len();
            let (addr, request, _) = live.swap_remove(index);
            assert_eq!(allocator.read(addr & !7), addr);
            allocator.deallocate(addr, request);
        }
    }
}

#[test]
fn fallback_alloc_leaves_the_class_lists_alone() {
    let mut allocator = heap(0x100000, 0x1000);
    let block = allocator.allocate(layout(32, 32)).unwrap();
    allocator.deallocate(block, layout(32, 32));
    // the fallback heap does not see the free block of the class
    let other = allocator.fallback_alloc(layout(32, 32)).unwrap();
    assert!(other != block);
    assert_eq!(allocator.allocate(layout(32, 32)), Some(block));
    assert_eq!(allocator.fallback_alloc(layout(0x1000, 8)), None);
}

/// A box and a sequence that grows to 500 elements, for elements of several sizes: on a heap
/// of this size no request is refused, whatever is freed in between.
#[test]
fn growing_sequences_of_other_element_sizes() {
    for element in [1usize, 3, 4, 16, 24, 100] {
        let mut allocator = heap(HEAP_START as usize, HEAP_SIZE);
        let boxed = layout(4, 4);
        let value = allocator.allocate(boxed).expect("out of memory");
        let mut capacity = 4usize;
        let mut buffer = allocator.allocate(layout(element * capacity, 8)).expect("out of memory");
        for len in 0..500usize {
            if len == capacity {
                let grown =
                    allocator.allocate(layout(2 * element * capacity, 8)).expect("out of memory");
                assert!(
                    grown + 2 * element * capacity <= buffer || buffer + element * capacity <= grown
                );
                allocator.deallocate(buffer, layout(element * capacity, 8));
                buffer = grown;
                capacity *= 2;
            }
        }
        allocator.deallocate(buffer, layout(element * capacity, 8));
        allocator.deallocate(value, boxed);
    }
}

#[test]
fn fixed_takes_a_chunk_with_a_small_rest() {
    // 0x48 bytes: a block of 0x40 leaves 8, too few for a node, and is served all the same
    let mut allocator = heap(0x100000, 0x48);
    assert_eq!(allocator.allocate(layout(0x40, 0x40)), Some(0x100000));
    assert_eq!(allocator.allocate(layout(8, 8)), None);
}
