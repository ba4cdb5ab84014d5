use vstd::prelude::*;

verus! {

/// The number of bytes in a page of virtual memory, and in a frame of physical memory.
pub const PAGE_SIZE: u64 = 4096;

/// The page table flag of a page that is present.
pub const PRESENT: u64 = 1;

/// The page table flag of a page that may be written to.
pub const WRITABLE: u64 = 2;

/// Why a page could not be mapped.
#[derive(Clone, Copy, Debug, PartialEq, Eq, Structural)]
pub enum MapToError {
    /// A frame was needed, but the frame allocator had none left.
    FrameAllocationFailed,
    /// The page is part of a huge page that is mapped already.
    ParentEntryHugePage,
    /// The page is mapped already, to the frame at the given address.
    PageAlreadyMapped(u64),
}

/// The start address of the page that holds the address `addr`.
pub open spec fn page_of(addr: u64) -> u64 {
    (addr - addr % PAGE_SIZE) as u64
}

/// The start address of the page that holds the address `addr`.
pub fn page_containing(addr: u64) -> (r: u64)
    ensures
        r == page_of(addr),
        r <= addr < r + PAGE_SIZE,
        r % PAGE_SIZE == 0,
{
    addr - addr % PAGE_SIZE
}

/// What the mapping of the heap waits for.
#[derive(Clone, Copy, Debug, PartialEq, Eq, Structural)]
pub enum InitState {
    /// Nothing has been asked for yet.
    Created,
    /// A frame has been asked for, to map the page at `page` to.
    AwaitFrame {
        /// The start address of the page.
        page: u64,
    },
    /// The mapping of the page at `page` has been asked for.
    AwaitMap {
        /// The start address of the page.
        page: u64,
    },
    /// The allocator has been asked to take the heap.
    AwaitAllocator,
    /// The result has been returned.
    Done,
}

/// What has happened since the last step.
#[derive(Clone, Copy, Debug, PartialEq, Eq)]
pub enum InitEvent {
    /// The mapping of the heap begins.
    Begin,
    /// The frame allocator has answered: with the address of a frame, or with nothing.
    Frame(Option<u64>),
    /// The page mapper has answered.
    Mapped(Result<(), MapToError>),
    /// The allocator has taken the heap.
    AllocatorReady,
}

/// What is to be done next.
#[derive(Clone, Copy, Debug, PartialEq, Eq)]
pub enum InitAction {
    /// Ask the frame allocator for one frame.
    AllocateFrame,
    /// Map the page at `page` to the frame at `frame`, with the flags `flags`.
    MapTo {
        /// The start address of the page.
        page: u64,
        /// The start address of the frame.
        frame: u64,
        /// The page table flags of the mapping.
        flags: u64,
    },
    /// Initialize the allocator over the heap.
    InitAllocator {
        /// The address of the first byte of the heap.
        heap_start: u64,
        /// The number of bytes of the heap.
        heap_size: u64,
    },
    /// Return the result: the heap is mapped and initialized, or a page could not be mapped.
    Return(Result<(), MapToError>),
}

/// The mapping of the heap region to physical frames, page by page, as a sequence of steps.
///
/// The one who runs it performs each action and reports what came of it; the steps decide
/// what follows. Every page that holds a byte of the heap is mapped, in ascending order, to
/// a frame of its own, writable; then the allocator is initialized over the heap. The first
/// failure ends the run.
#[derive(Clone, Copy, Debug, PartialEq, Eq, Structural)]
pub struct HeapInit {
    /// The address of the first byte of the heap.
    pub heap_start: u64,
    /// The number of bytes of the heap.
    pub heap_size: u64,
    /// What the run waits for.
    pub state: InitState,
}

impl HeapInit {
    /// The heap has a byte, its last byte has an address, and a page that the run is at is a
    /// page of the heap.
    pub open spec fn wf(self) -> bool {
        &&& self.heap_size >= 1
        &&& self.heap_start + self.heap_size - 1 <= u64::MAX
        &&& match self.state {
            InitState::AwaitFrame { page } => self.is_heap_page(page),
            InitState::AwaitMap { page } => self.is_heap_page(page),
            _ => true,
        }
    }

    /// Whether `page` is the start address of a page that holds a byte of the heap.
    pub open spec fn is_heap_page(self, page: u64) -> bool {
        &&& page % PAGE_SIZE == 0
        &&& self.first_page() <= page <= self.last_page()
    }

    /// The number of pages that hold a byte of the heap.
    pub open spec fn page_count(self) -> int {
        (self.last_page() - self.first_page()) / (PAGE_SIZE as int) + 1
    }

    /// The start address of the first page of the heap.
    pub open spec fn first_page(self) -> u64 {
        page_of(self.heap_start)
    }

    /// The start address of the last page of the heap.
    pub open spec fn last_page(self) -> u64 {
        page_of((self.heap_start + self.heap_size - 1) as u64)
    }

    /// Whether `event` is what the run waits for.
    pub open spec fn expects(self, event: InitEvent) -> bool {
        match (self.state, event) {
            (InitState::Created, InitEvent::Begin) => true,
            (InitState::AwaitFrame { .. }, InitEvent::Frame(_)) => true,
            (InitState::AwaitMap { .. }, InitEvent::Mapped(_)) => true,
            (InitState::AwaitAllocator, InitEvent::AllocatorReady) => true,
            _ => false,
        }
    }

    /// What the run waits for after `event`, and what is to be done. An event that the run
    /// does not wait for changes nothing and asks for nothing.
    pub open spec fn step_spec(self, event: InitEvent) -> (InitState, Option<InitAction>) {
        match (self.state, event) {
            (InitState::Created, InitEvent::Begin) => (
                InitState::AwaitFrame { page: self.first_page() },
                Some(InitAction::AllocateFrame),
            ),
            (InitState::AwaitFrame { page }, InitEvent::Frame(Some(frame))) => (
                InitState::AwaitMap { page },
                Some(InitAction::MapTo { page, frame, flags: PRESENT | WRITABLE }),
            ),
            (InitState::AwaitFrame { page }, InitEvent::Frame(None)) => (
                InitState::Done,
                Some(InitAction::Return(Err(MapToError::FrameAllocationFailed))),
            ),
            (InitState::AwaitMap { page }, InitEvent::Mapped(Ok(()))) => if page
                < self.last_page() {
                (
                    InitState::AwaitFrame { page: (page + PAGE_SIZE) as u64 },
                    Some(InitAction::AllocateFrame),
                )
            } else {
                (
                    InitState::AwaitAllocator,
                    Some(
                        InitAction::InitAllocator {
                            heap_start: self.heap_start,
                            heap_size: self.heap_size,
                        },
                    ),
                )
            },
            (InitState::AwaitMap { page }, InitEvent::Mapped(Err(error))) => (
                InitState::Done,
                Some(InitAction::Return(Err(error))),
            ),
            (InitState::AwaitAllocator, InitEvent::AllocatorReady) => (
                InitState::Done,
                Some(InitAction::Return(Ok(()))),
            ),
            _ => (self.state, None),
        }
    }

    /// The run that maps the `heap_size` bytes from `heap_start` on, before its first step.
    pub fn new(heap_start: u64, heap_size: u64) -> (r: Self)
        ensures
            r == (HeapInit { heap_start, heap_size, state: InitState::Created }),
    {
        HeapInit { heap_start, heap_size, state: InitState::Created }
    }

    /// Whether the heap has a byte and its last byte has an address, so that a run can begin.
    pub fn can_begin(&self) -> (r: bool)
        ensures
            r == (self.wf() && self.state == InitState::Created),
    {
        let fits = self.heap_size >= 1 && self.heap_size - 1 <= u64::MAX - self.heap_start;
        match self.state {
            InitState::Created => fits,
            _ => false,
        }
    }

    /// Takes one step: given what has happened, says what is to be done next. Given an event
    /// that the run does not wait for, it changes nothing and returns `None`.
    pub fn step(&mut self, event: InitEvent) -> (action: Option<InitAction>)
        requires
            old(self).wf(),
        ensures
            final(self).wf(),
            final(self).heap_start == old(self).heap_start,
            final(self).heap_size == old(self).heap_size,
            (final(self).state, action) == old(self).step_spec(event),
            action is Some <==> old(self).expects(event),
    {
        let (state, action) = match (self.state, event) {
            (InitState::Created, InitEvent::Begin) => (
                InitState::AwaitFrame { page: page_containing(self.heap_start) },
                InitAction::AllocateFrame,
            ),
            (InitState::AwaitFrame { page }, InitEvent::Frame(Some(frame))) => {
                (
                    InitState::AwaitMap { page },
                    InitAction::MapTo { page, frame, flags: PRESENT | WRITABLE },
                )
            },
            (InitState::AwaitFrame { page }, InitEvent::Frame(None)) => (
                InitState::Done,
                InitAction::Return(Err(MapToError::FrameAllocationFailed)),
            ),
            (InitState::AwaitMap { page }, InitEvent::Mapped(Ok(()))) => {
                let last = page_containing(self.heap_start + (self.heap_size - 1));
                if page < last {
                    (InitState::AwaitFrame { page: page + PAGE_SIZE }, InitAction::AllocateFrame)
                } else {
                    (
                        InitState::AwaitAllocator,
                        InitAction::InitAllocator {
                            heap_start: self.heap_start,
                            heap_size: self.heap_size,
                        },
                    )
                }
            },
            (InitState::AwaitMap { page }, InitEvent::Mapped(Err(error))) => (
                InitState::Done,
                InitAction::Return(Err(error)),
            ),
            (InitState::AwaitAllocator, InitEvent::AllocatorReady) => (
                InitState::Done,
                InitAction::Return(Ok(())),
            ),
            _ => {
                return None;
            },
        };
        self.state = state;
        Some(action)
    }
}

/// The run `init` after it has begun and the pages before page number `k` have each been given
/// a frame of `frames` and been mapped.
pub open spec fn after_pages(init: HeapInit, frames: Seq<u64>, k: nat) -> HeapInit
    decreases k,
{
    if k == 0 {
        HeapInit { state: init.step_spec(InitEvent::Begin).0, ..init }
    } else {
        let before = after_pages(init, frames, (k - 1) as nat);
        let framed = HeapInit {
            state: before.step_spec(InitEvent::Frame(Some(frames[k - 1]))).0,
            ..before
        };
        HeapInit { state: framed.step_spec(InitEvent::Mapped(Ok(()))).0, ..framed }
    }
}

/// A run in which every frame is had and every mapping succeeds maps the pages of the heap in
/// ascending order, each once, and asks for the allocator to be initialized when the last page
/// is mapped, not before.
pub proof fn lemma_every_page_is_mapped_in_order(init: HeapInit, frames: Seq<u64>, k: nat)
    requires
        init.wf(),
        init.state == InitState::Created,
        k <= init.page_count(),
        k <= frames.len(),
    ensures
        after_pages(init, frames, k).wf(),
        after_pages(init, frames, k).heap_start == init.heap_start,
        after_pages(init, frames, k).heap_size == init.heap_size,
        k < init.page_count() ==> {
            let page = (init.first_page() + k * PAGE_SIZE) as u64;
            &&& after_pages(init, frames, k).state == (InitState::AwaitFrame { page })
            &&& after_pages(init, frames, k).step_spec(InitEvent::Frame(Some(frames[k as int]))).1
                == Some(
                InitAction::MapTo { page, frame: frames[k as int], flags: PRESENT | WRITABLE },
            )
        },
        k == init.page_count() ==> {
            &&& after_pages(init, frames, k).state == InitState::AwaitAllocator
            &&& after_pages(init, frames, k).step_spec(InitEvent::AllocatorReady).1 == Some(
                InitAction::Return(Ok(())),
            )
        },
    decreases k,
{
    let first = init.first_page();
    let last = init.last_page();
    assert(first % PAGE_SIZE == 0 && last % PAGE_SIZE == 0 && first <= last);
    if k > 0 {
        lemma_every_page_is_mapped_in_order(init, frames, (k - 1) as nat);
        let page = first + (k - 1) * PAGE_SIZE;
        assert(page <= last);
        if page < last {
            assert((page + PAGE_SIZE) % (PAGE_SIZE as int) == 0);
            assert(page + PAGE_SIZE <= last);
        }
    }
}

} // verus!
