use rust_kernel::allocator::arena::{link_word, word_link, Arena, Memory, NO_LINK};
use rust_kernel::allocator::linked_list::{
    alloc_from_region, size_align, LinkedListAllocator, ListNode,
};
use rust_kernel::allocator::{Layout, LayoutError};

fn layout(size: usize, align: usize) -> Layout {
    Layout { size, align }
}

fn heap(start: usize, size: usize) -> LinkedListAllocator<Arena> {
    let mut allocator = LinkedListAllocator::new();
    allocator.init(start, size);
    allocator
}

#[test]
fn list_node_addresses() {
    let node = ListNode::new(0x1000, 0x40);
    assert_eq!(node.start_addr(), 0x1000);
    assert_eq!(node.end_addr(), 0x1040);
    assert_eq!(node.next, None);
}

#[test]
fn size_align_pads_to_a_node() {
    assert_eq!(size_align(layout(1, 1)), Ok(layout(16, 8)));
    assert_eq!(size_align(layout(0, 1)), Ok(layout(16, 8)));
    assert_eq!(size_align(layout(16, 8)), Ok(layout(16, 8)));
    assert_eq!(size_align(layout(17, 8)), Ok(layout(24, 8)));
    assert_eq!(size_align(layout(4, 4)), Ok(layout(16, 8)));
    assert_eq!(size_align(layout(40, 32)), Ok(layout(64, 32)));
    assert_eq!(size_align(layout(0, 64)), Ok(layout(16, 64)));
}

#[test]
fn size_align_fails() {
    assert_eq!(size_align(layout(8, 3)), Err(LayoutError));
    assert_eq!(size_align(layout(8, 0)), Err(LayoutError));
    assert_eq!(size_align(layout(usize::MAX, 1)), Err(LayoutError));
    let max = isize::MAX as usize;
    assert_eq!(size_align(layout(max, 1)), Err(LayoutError));
    assert_eq!(size_align(layout(max - 7, 1)), Ok(layout(max - 7, 8)));
    assert_eq!(size_align(layout(0, max + 1)), Err(LayoutError));
}

#[test]
fn alloc_from_region_cases() {
    let region = ListNode::new(0x1000, 0x40);
    // exact fit
    assert_eq!(alloc_from_region(&region, layout(0x40, 8)), Some(0x1000));
    // the rest holds a node
    assert_eq!(alloc_from_region(&region, layout(0x30, 8)), Some(0x1000));
    // the rest is too small for a node: the region is taken all the same
    assert_eq!(alloc_from_region(&region, layout(0x38, 8)), Some(0x1000));
    assert_eq!(alloc_from_region(&region, layout(0x3f, 1)), Some(0x1000));
    // too large
    assert_eq!(alloc_from_region(&region, layout(0x48, 8)), None);
    // no power of two
    assert_eq!(alloc_from_region(&region, layout(0x10, 12)), None);
    // overflow
    assert_eq!(alloc_from_region(&region, layout(usize::MAX, 8)), None);
    // the start is rounded up
    let odd = ListNode::new(0x1008, 0x38);
    assert_eq!(alloc_from_region(&odd, layout(0x10, 0x20)), Some(0x1020));
    assert_eq!(alloc_from_region(&odd, layout(0x20, 0x20)), Some(0x1020));
    assert_eq!(alloc_from_region(&odd, layout(0x18, 0x20)), Some(0x1020));
    assert_eq!(alloc_from_region(&odd, layout(0x28, 0x20)), None);
}

#[test]
fn linked_list_first_allocation_is_at_the_start() {
    let mut allocator = heap(0x10000, 0x1000);
    assert_eq!(allocator.allocate(layout(4, 4)), Some(0x10000));
    assert_eq!(allocator.allocate(layout(24, 8)), Some(0x10010));
    assert_eq!(allocator.allocate(layout(1, 1)), Some(0x10028));
}

#[test]
fn linked_list_uninitialized_serves_nothing() {
    let mut allocator: LinkedListAllocator<Arena> = LinkedListAllocator::new();
    assert_eq!(allocator.allocate(layout(1, 1)), None);
}

#[test]
fn linked_list_exhaustion_and_reuse() {
    let mut allocator = heap(0x10000, 0x40);
    let a = allocator.allocate(layout(16, 8)).unwrap();
    let b = allocator.allocate(layout(16, 8)).unwrap();
    let c = allocator.allocate(layout(32, 8)).unwrap();
    assert_eq!((a, b, c), (0x10000, 0x10010, 0x10020));
    assert_eq!(allocator.allocate(layout(1, 1)), None);
    allocator.deallocate(b, layout(16, 8));
    assert_eq!(allocator.allocate(layout(32, 8)), None);
    assert_eq!(allocator.allocate(layout(8, 8)), Some(b));
    allocator.deallocate(a, layout(16, 8));
    allocator.deallocate(c, layout(32, 8));
    // the list is walked from the block freed last
    assert_eq!(allocator.allocate(layout(16, 8)), Some(c));
    assert_eq!(allocator.allocate(layout(16, 8)), Some(c + 16));
    assert_eq!(allocator.allocate(layout(16, 8)), Some(a));
}

#[test]
fn linked_list_does_not_merge_neighbours() {
    let mut allocator = heap(0x10000, 0x40);
    let a = allocator.allocate(layout(32, 8)).unwrap();
    let b = allocator.allocate(layout(32, 8)).unwrap();
    allocator.deallocate(a, layout(32, 8));
    allocator.deallocate(b, layout(32, 8));
    assert_eq!(allocator.allocate(layout(64, 8)), None);
    assert_eq!(allocator.allocate(layout(32, 8)), Some(b));
    assert_eq!(allocator.allocate(layout(32, 8)), Some(a));
}

#[test]
fn linked_list_takes_a_chunk_with_a_small_rest() {
    let mut allocator = heap(0x10000, 0x58);
    let a = allocator.allocate(layout(0x18, 8)).unwrap();
    let b = allocator.allocate(layout(0x40, 8)).unwrap();
    assert_eq!((a, b), (0x10000, 0x10018));
    allocator.deallocate(b, layout(0x40, 8));
    allocator.deallocate(a, layout(0x18, 8));
    // the first chunk has 0x18 bytes: 0x10 of them leave 8, too few for a node, and the
    // chunk is handed out whole
    assert_eq!(allocator.allocate(layout(0x10, 8)), Some(a));
    // nothing of the first chunk is left in the list
    assert_eq!(allocator.allocate(layout(0x18, 8)), Some(b));
    assert_eq!(allocator.allocate(layout(0x18, 8)), Some(b + 0x18));
    assert_eq!(allocator.allocate(layout(0x18, 8)), None);
    assert_eq!(allocator.allocate(layout(0x10, 8)), Some(b + 0x30));
    assert_eq!(allocator.allocate(layout(0x10, 8)), None);
}

#[test]
fn linked_list_hands_out_the_last_bytes_of_the_heap() {
    // 0x28 bytes: a block of 0x20 leaves 8, which go with it
    let mut allocator = heap(0x10000, 0x28);
    assert_eq!(allocator.allocate(layout(0x20, 8)), Some(0x10000));
    assert_eq!(allocator.allocate(layout(1, 1)), None);
    allocator.deallocate(0x10000, layout(0x20, 8));
    // the freed block has the size that was asked for
    assert_eq!(allocator.allocate(layout(0x28, 8)), None);
    assert_eq!(allocator.allocate(layout(0x20, 8)), Some(0x10000));
}

#[test]
fn linked_list_aligns_inside_a_chunk() {
    let mut allocator = heap(0x10008, 0x1000);
    let a = allocator.allocate(layout(64, 64)).unwrap();
    assert_eq!(a, 0x10040);
    // the bytes in front of the block are lost with the chunk
    let b = allocator.allocate(layout(16, 8)).unwrap();
    assert_eq!(b, 0x10080);
}

#[test]
fn linked_list_refuses_a_bad_layout() {
    let mut allocator = heap(0x10000, 0x1000);
    assert_eq!(allocator.allocate(layout(8, 3)), None);
    assert_eq!(allocator.allocate(layout(usize::MAX, 8)), None);
    assert_eq!(allocator.allocate(layout(0x1001, 8)), None);
    assert_eq!(allocator.allocate(layout(0x1000, 8)), Some(0x10000));
}

#[test]
fn linked_list_memory_keeps_what_is_written() {
    let mut allocator = heap(0x10000, 0x1000);
    let a = allocator.allocate(layout(32, 8)).unwrap();
    let b = allocator.allocate(layout(16, 8)).unwrap();
    for i in 0..4 {
        allocator.write(a + 8 * i, 100 + i);
    }
    allocator.write(b, 7);
    allocator.write(b + 8, 9);
    let c = allocator.allocate(layout(64, 8)).unwrap();
    allocator.write(c, 1);
    allocator.deallocate(b, layout(16, 8));
    for i in 0..4 {
        assert_eq!(allocator.read(a + 8 * i), 100 + i);
    }
    assert_eq!(allocator.read(c), 1);
}

#[test]
fn linked_list_live_blocks_stay_apart() {
    let mut allocator = heap(0x20000, 0x2000);
    let mut live: Vec<(usize, Layout)> = Vec::new();
    let mut seed: usize = 12345;
    for round in 0..2000 {
        seed = seed.wrapping_mul(6364136223846793005).wrapping_add(1442695040888963407);
        let pick = (seed >> 33) % 7;
        if pick < 4 || live.is_empty() {
            let size = 1 + (seed >> 40) % 200;
            let align = 1usize << ((seed >> 50) % 6);
            let request = layout(size, align);
            if let Some(addr) = allocator.allocate(request) {
                let padded = size_align(request).unwrap().size;
                assert_eq!(addr % align, 0, "round {}", round);
                assert!(addr >= 0x20000 && addr + padded <= 0x22000);
                for (other, other_layout) in &live {
                    let other_size = size_align(*other_layout).unwrap().size;
                    assert!(addr + padded <= *other || other + other_size <= addr);
                }
                live.push((addr, request));
            }
        } else {
            let index = (seed >> 40) % live.len();
            let (addr, request) = live.swap_remove(index);
            allocator.deallocate(addr, request);
        }
    }
}

/// A memory of the test's own: it keeps its words in a map and counts the writes.
struct Sparse {
    start: usize,
    size: usize,
    words: std::collections::BTreeMap<usize, usize>,
    writes: usize,
}

impl Memory for Sparse {
    fn start(&self) -> usize {
        self.start
    }

    fn size(&self) -> usize {
        self.size
    }

    fn word(&self, addr: usize) -> usize {
        self.read(addr)
    }

    fn backed(&self) -> bool {
        true
    }

    fn empty() -> Self {
        Sparse { start: 0, size: 0, words: std::collections::BTreeMap::new(), writes: 0 }
    }

    fn over(start: usize, size: usize) -> Self {
        Sparse { start, size, words: std::collections::BTreeMap::new(), writes: 0 }
    }

    fn read(&self, addr: usize) -> usize {
        assert!(addr % 8 == 0 && self.start <= addr && addr + 8 <= self.start + self.size);
        self.words.get(&addr).copied().unwrap_or(0)
    }

    fn write(&mut self, addr: usize, value: usize) {
        assert!(addr % 8 == 0 && self.start <= addr && addr + 8 <= self.start + self.size);
        self.writes += 1;
        self.words.insert(addr, value);
    }
}

#[test]
fn linked_list_over_a_memory_of_the_callers() {
    let mut allocator: LinkedListAllocator<Sparse> = LinkedListAllocator::new();
    allocator.init(0x10000, 0x100);
    assert_eq!(allocator.allocate(layout(16, 8)), Some(0x10000));
    assert_eq!(allocator.allocate(layout(16, 16)), Some(0x10010));
    allocator.deallocate(0x10000, layout(16, 8));
    assert_eq!(allocator.allocate(layout(1, 1)), Some(0x10000));
    allocator.write(0x10000, 5);
    assert_eq!(allocator.read(0x10000), 5);
}

#[test]
fn arena_words() {
    let mut arena = Arena::over(0x1000, 0x20);
    for i in 0..4 {
        assert_eq!(arena.read(0x1000 + 8 * i), 0);
    }
    arena.write(0x1008, 77);
    arena.write(0x1018, usize::MAX);
    assert_eq!(arena.read(0x1000), 0);
    assert_eq!(arena.read(0x1008), 77);
    assert_eq!(arena.read(0x1010), 0);
    assert_eq!(arena.read(0x1018), usize::MAX);
}

#[test]
fn find_region_takes_the_first_chunk_that_fits() {
    let mut allocator = heap(0x10000, 0x140);
    let a = allocator.allocate(layout(0x40, 8)).unwrap();
    allocator.deallocate(a, layout(0x40, 8));
    // the chunk freed last is the first of the list, but too small for this request
    let (node, start) = allocator.find_region(layout(0x80, 8)).unwrap();
    assert_eq!((node.start_addr(), node.size, node.next), (0x10040, 0x100, None));
    assert_eq!(start, 0x10040);
    // the whole chunk has left the list
    assert_eq!(allocator.find_region(layout(0x80, 8)), None);
    let (node, start) = allocator.find_region(layout(0x10, 0x20)).unwrap();
    assert_eq!((node.start_addr(), node.size), (0x10000, 0x40));
    assert_eq!(start, 0x10000);
    assert_eq!(allocator.find_region(layout(0x10, 8)), None);
}

#[test]
fn add_free_region_puts_the_chunk_first() {
    let mut allocator = heap(0x10000, 0x40);
    let a = allocator.allocate(layout(0x40, 8)).unwrap();
    assert_eq!(allocator.allocate(layout(0x10, 8)), None);
    allocator.add_free_region(a + 0x20, 0x20);
    allocator.add_free_region(a, 0x20);
    assert_eq!(allocator.allocate(layout(0x10, 8)), Some(a));
    assert_eq!(allocator.allocate(layout(0x20, 8)), Some(a + 0x20));
    assert_eq!(allocator.allocate(layout(0x10, 8)), Some(a + 0x10));
}

#[test]
fn links_as_words() {
    assert_eq!(link_word(None), NO_LINK);
    assert_eq!(link_word(Some(0x10000)), 0x10000);
    assert_eq!(link_word(Some(0)), 0);
    assert_eq!(word_link(NO_LINK), None);
    assert_eq!(word_link(0x10008), Some(0x10008));
    assert_eq!(word_link(0), Some(0));
    assert_eq!(NO_LINK % 8, 7);
}
