use crate::allocator::bootstrap::{page_containing, page_of, PAGE_SIZE};
use vstd::prelude::*;

verus! {

/// A region of physical memory, as the bootloader reports it: the addresses from `start_addr`
/// up to, and without, `end_addr`.
#[derive(Debug, Clone, Copy, PartialEq, Eq, Structural)]
pub struct MemoryRegion {
    /// The physical start address of the region.
    pub start_addr: u64,
    /// The physical end address of the region.
    pub end_addr: u64,
    /// Whether the region is freely usable by the kernel.
    pub usable: bool,
}

impl MemoryRegion {
    /// The number of frames that the region gives: none where it is not usable or empty, else
    /// one for every step of a frame's size from the start address that stays below the end
    /// address.
    pub open spec fn frame_count(self) -> nat {
        if self.usable && self.start_addr < self.end_addr {
            ((self.end_addr - self.start_addr - 1) / (PAGE_SIZE as int) + 1) as nat
        } else {
            0
        }
    }

    /// The start address of frame `i` of the region: that of the frame which holds the
    /// address `i` frame sizes behind the start address.
    pub open spec fn frame_at(self, i: int) -> u64 {
        page_of((self.start_addr + i * PAGE_SIZE) as u64)
    }

    /// The start addresses of the frames that the region gives, in ascending order.
    pub open spec fn frames(self) -> Seq<u64> {
        Seq::new(self.frame_count(), |i: int| self.frame_at(i))
    }
}

/// The start addresses of the frames that the usable regions of a memory map give: region by
/// region in the order of the map, and within a region in ascending order.
pub open spec fn usable_frames(regions: Seq<MemoryRegion>) -> Seq<u64>
    decreases regions.len(),
{
    if regions.len() == 0 {
        Seq::empty()
    } else {
        usable_frames(regions.drop_last()) + regions.last().frames()
    }
}

/// The frames of the first `i + 1` regions are those of the first `i` regions, followed by
/// those of region `i`.
proof fn lemma_usable_frames_step(regions: Seq<MemoryRegion>, i: int)
    requires
        0 <= i < regions.len(),
    ensures
        usable_frames(regions.take(i + 1)) == usable_frames(regions.take(i)) + regions[i].frames(),
{
    assert(regions.take(i + 1).drop_last() =~= regions.take(i));
}

/// The frames of the first `i` regions come first among the frames of all regions.
proof fn lemma_usable_frames_prefix(regions: Seq<MemoryRegion>, i: int)
    requires
        0 <= i <= regions.len(),
    ensures
        usable_frames(regions.take(i)).len() <= usable_frames(regions).len(),
        forall|k: int|
            0 <= k < usable_frames(regions.take(i)).len() ==> #[trigger] usable_frames(regions)[k]
                == usable_frames(regions.take(i))[k],
    decreases regions.len() - i,
{
    if i == regions.len() {
        assert(regions.take(i) =~= regions);
    } else {
        lemma_usable_frames_step(regions, i);
        lemma_usable_frames_prefix(regions, i + 1);
        assert forall|k: int| 0 <= k < usable_frames(regions.take(i)).len() implies #[trigger] usable_frames(
            regions,
        )[k] == usable_frames(regions.take(i))[k] by {
            assert(usable_frames(regions.take(i + 1))[k] == usable_frames(regions.take(i))[k]);
        }
    }
}

/// The start address of frame number `n` among the frames that the usable regions of
/// `regions` give, counted from zero, or `None` where they give no more than `n` frames.
pub fn nth_usable_frame(regions: &[MemoryRegion], n: usize) -> (r: Option<u64>)
    ensures
        r == if n < usable_frames(regions@).len() {
            Some(usable_frames(regions@)[n as int])
        } else {
            None
        },
{
    let mut remaining: u64 = n as u64;
    let mut index: usize = 0;
    while index < regions.len()
        invariant
            index <= regions.len(),
            usable_frames(regions@.take(index as int)).len() + remaining == n,
        decreases regions.len() - index,
    {
        let region = regions[index];
        proof {
            lemma_usable_frames_step(regions@, index as int);
            lemma_usable_frames_prefix(regions@, index + 1);
        }
        if region.usable && region.start_addr < region.end_addr {
            let count = (region.end_addr - region.start_addr - 1) / PAGE_SIZE + 1;
            if remaining < count {
                assert(remaining * PAGE_SIZE <= region.end_addr - region.start_addr - 1) by {
                    assert(remaining <= (region.end_addr - region.start_addr - 1) / (
                    PAGE_SIZE as int));
                    vstd::arithmetic::div_mod::lemma_fundamental_div_mod(
                        region.end_addr - region.start_addr - 1,
                        PAGE_SIZE as int,
                    );
                }
                let frame = page_containing(region.start_addr + remaining * PAGE_SIZE);
                proof {
                    let before = usable_frames(regions@.take(index as int));
                    assert(region.frames()[remaining as int] == frame);
                    assert((before + region.frames())[n as int] == frame);
                }
                return Some(frame);
            }
            remaining -= count;
        }
        index += 1;
    }
    proof {
        assert(regions@.take(index as int) =~= regions@);
    }
    None
}

/// A frame allocator that returns usable frames from the bootloader's memory map, each once,
/// in the order of [`usable_frames`].
pub struct BootInfoFrameAllocator<'a> {
    memory_map: &'a [MemoryRegion],
    next: usize,
}

impl<'a> BootInfoFrameAllocator<'a> {
    /// The regions of the memory map.
    pub closed spec fn regions(&self) -> Seq<MemoryRegion> {
        self.memory_map@
    }

    /// The number of frames that have been asked for.
    pub closed spec fn next(&self) -> usize {
        self.next
    }

    /// Create a frame allocator from the passed memory map.
    ///
    /// The caller answers for the map: the frames of the regions that it marks as usable are
    /// unused.
    pub fn init(memory_map: &'a [MemoryRegion]) -> (r: Self)
        ensures
            r.regions() == memory_map@,
            r.next() == 0,
    {
        BootInfoFrameAllocator { memory_map, next: 0 }
    }

    /// Hands out the next usable frame, by its start address, or `None` once every usable
    /// frame has been handed out.
    pub fn allocate_frame(&mut self) -> (r: Option<u64>)
        ensures
            final(self).regions() == old(self).regions(),
            r == if old(self).next() < usable_frames(old(self).regions()).len() {
                Some(usable_frames(old(self).regions())[old(self).next() as int])
            } else {
                None
            },
            final(self).next() == if old(self).next() < usize::MAX {
                old(self).next() + 1
            } else {
                usize::MAX as int
            },
    {
        let frame = nth_usable_frame(self.memory_map, self.next);
        if self.next < usize::MAX {
            self.next += 1;
        }
        frame
    }
}

} // verus!
