use super::{align_up, align_up_spec, is_aligned, Layout};
use vstd::prelude::*;

verus! {

/// What a [`BumpAllocator`] holds, as plain numbers.
pub struct BumpState {
    /// Start of the heap region.
    pub heap_start: usize,
    /// One byte beyond the heap region.
    pub heap_end: usize,
    /// The next unused byte in the region.
    pub next: usize,
    /// The number of allocations that have not been freed yet.
    pub allocations: usize,
}

impl BumpState {
    /// The cursor lies inside the region, and rests at its start while nothing is allocated.
    pub open spec fn wf(self) -> bool {
        &&& self.heap_start <= self.next <= self.heap_end
        &&& self.allocations == 0 ==> self.next == self.heap_start
    }

    /// The state after a request for `layout`, and the address handed out, if any.
    ///
    /// The request is served at the cursor rounded up to the alignment, where the block still
    /// ends inside the region and the count of outstanding blocks can still grow; otherwise
    /// nothing changes.
    pub open spec fn allocate(self, layout: Layout) -> (BumpState, Option<usize>) {
        match align_up_spec(self.next, layout.align) {
            Some(start) if start + layout.size <= self.heap_end && self.allocations < usize::MAX
                => (
                BumpState {
                    next: (start + layout.size) as usize,
                    allocations: (self.allocations + 1) as usize,
                    ..self
                },
                Some(start),
            ),
            _ => (self, None),
        }
    }

    /// The state after one block has been freed: the whole region is free again once the last
    /// block is.
    pub open spec fn deallocate(self) -> BumpState {
        if self.allocations == 1 {
            BumpState { next: self.heap_start, allocations: 0, ..self }
        } else {
            BumpState { allocations: (self.allocations - 1) as usize, ..self }
        }
    }

    /// The state after the first `n` of the requests `reqs` have been made, one after the other.
    pub open spec fn after_allocations(self, reqs: Seq<Layout>, n: nat) -> BumpState
        decreases n,
    {
        if n == 0 {
            self
        } else {
            self.after_allocations(reqs, (n - 1) as nat).allocate(reqs[n - 1]).0
        }
    }

    /// The address that request `i` of `reqs` is given where the requests are made one after the
    /// other, starting in this state.
    pub open spec fn nth_allocation(self, reqs: Seq<Layout>, i: nat) -> Option<usize> {
        self.after_allocations(reqs, i).allocate(reqs[i as int]).1
    }

    /// The state after `n` blocks have been freed.
    pub open spec fn after_deallocations(self, n: nat) -> BumpState
        decreases n,
    {
        if n == 0 {
            self
        } else {
            self.after_deallocations((n - 1) as nat).deallocate()
        }
    }
}

/// A bump allocator: it hands out the region front to back and takes it back as a whole.
pub struct BumpAllocator {
    /// start of the heap region
    heap_start: usize,
    /// one byte beyond the heap region
    heap_end: usize,
    /// always points to the next unused byte in the region
    next: usize,
    /// number of fulfilled allocations
    allocations: usize,
}

impl View for BumpAllocator {
    type V = BumpState;

    closed spec fn view(&self) -> BumpState {
        BumpState {
            heap_start: self.heap_start,
            heap_end: self.heap_end,
            next: self.next,
            allocations: self.allocations,
        }
    }
}

impl BumpAllocator {
    /// Creates the bump allocator over the `heap_size` bytes that start at `heap_start`.
    ///
    /// The caller hands over a range that nothing else uses, and does so once.
    pub fn new(heap_start: usize, heap_size: usize) -> (r: Self)
        requires
            heap_start + heap_size <= usize::MAX,
        ensures
            r@ == (BumpState {
                heap_start,
                heap_end: (heap_start + heap_size) as usize,
                next: heap_start,
                allocations: 0,
            }),
            r@.wf(),
    {
        BumpAllocator {
            heap_start,
            heap_end: heap_start + heap_size,
            next: heap_start,
            allocations: 0,
        }
    }

    /// Serves `layout` at the cursor, rounded up to the alignment, and moves the cursor past
    /// the new block. Returns `None`, and changes nothing, where the alignment is no power of
    /// two, the block would end beyond the region, or the count of outstanding blocks has
    /// reached the largest number there is.
    pub fn allocate(&mut self, layout: Layout) -> (r: Option<usize>)
        ensures
            (final(self)@, r) == old(self)@.allocate(layout),
            old(self)@.wf() ==> final(self)@.wf(),
            r is None ==> final(self)@ == old(self)@,
            r matches Some(start) ==> {
                &&& is_aligned(start as int, layout.align as int)
                &&& old(self)@.next <= start
                &&& start + layout.size == final(self)@.next
                &&& final(self)@.next <= old(self)@.heap_end
            },
    {
        let alloc_start = match align_up(self.next, layout.align) {
            Some(start) => start,
            None => return None,
        };
        let alloc_end = match alloc_start.checked_add(layout.size) {
            Some(end) => end,
            None => return None,
        };
        if alloc_end > self.heap_end || self.allocations == usize::MAX {
            // out of memory
            None
        } else {
            self.next = alloc_end;
            self.allocations += 1;
            Some(alloc_start)
        }
    }

    /// Takes one block back. The block itself is not looked at: the region becomes free again,
    /// as a whole, when the last outstanding block is freed.
    pub fn deallocate(&mut self, addr: usize, layout: Layout)
        requires
            old(self)@.allocations > 0,
        ensures
            final(self)@ == old(self)@.deallocate(),
            old(self)@.wf() ==> final(self)@.wf(),
    {
        let _ = addr;
        let _ = layout;
        self.allocations -= 1;
        if self.allocations == 0 {
            // free all memory after every allocation in the heap was freed
            self.next = self.heap_start;
        }
    }

    /// Start of the heap region.
    pub fn heap_start(&self) -> (r: usize)
        ensures
            r == self@.heap_start,
    {
        self.heap_start
    }

    /// One byte beyond the heap region.
    pub fn heap_end(&self) -> (r: usize)
        ensures
            r == self@.heap_end,
    {
        self.heap_end
    }

    /// The next unused byte in the region.
    pub fn next(&self) -> (r: usize)
        ensures
            r == self@.next,
    {
        self.next
    }

    /// The number of allocations that have not been freed yet.
    pub fn allocations(&self) -> (r: usize)
        ensures
            r == self@.allocations,
    {
        self.allocations
    }
}

/// While requests are made one after the other, the cursor never moves back and the region
/// stays what it was.
proof fn lemma_cursor_never_retreats(s: BumpState, reqs: Seq<Layout>, m: nat, n: nat)
    requires
        m <= n <= reqs.len(),
    ensures
        s.after_allocations(reqs, m).next <= s.after_allocations(reqs, n).next,
        s.after_allocations(reqs, n).heap_start == s.heap_start,
        s.after_allocations(reqs, n).heap_end == s.heap_end,
        s.wf() ==> s.after_allocations(reqs, n).wf(),
    decreases n,
{
    if n > 0 {
        let before = s.after_allocations(reqs, (n - 1) as nat);
        lemma_cursor_never_retreats(s, reqs, if m < n { m } else { (n - 1) as nat }, (n - 1) as nat);
        lemma_allocate_moves_forward(before, reqs[n - 1]);
    }
}

/// One request leaves a well-formed state well-formed and the cursor at or after its place.
proof fn lemma_allocate_moves_forward(s: BumpState, layout: Layout)
    ensures
        s.next <= s.allocate(layout).0.next,
        s.allocate(layout).0.heap_start == s.heap_start,
        s.allocate(layout).0.heap_end == s.heap_end,
        s.wf() ==> s.allocate(layout).0.wf(),
        s.allocate(layout).1 matches Some(a) ==> {
            &&& s.next <= a
            &&& a + layout.size == s.allocate(layout).0.next
            &&& s.allocate(layout).0.next <= s.heap_end
            &&& is_aligned(a as int, layout.align as int)
            &&& s.allocate(layout).0.allocations == s.allocations + 1
        },
{
    if super::power_of_two(layout.align as int) {
        super::lemma_power_of_two_is_positive(layout.align as int);
        super::lemma_round_up_is_least_multiple(s.next as int, layout.align as int);
    }
}

/// Blocks handed out one after the other never overlap: a later block starts at or after the end
/// of every earlier one. Each is aligned as its request asked, and lies inside the region where
/// the first request met a well-formed state.
pub proof fn lemma_sequential_allocations_are_apart(
    s: BumpState,
    reqs: Seq<Layout>,
    i: nat,
    j: nat,
)
    requires
        i < j < reqs.len(),
        s.nth_allocation(reqs, i) is Some,
        s.nth_allocation(reqs, j) is Some,
    ensures
        s.nth_allocation(reqs, i).unwrap() + reqs[i as int].size <= s.nth_allocation(
            reqs,
            j,
        ).unwrap(),
        is_aligned(s.nth_allocation(reqs, i).unwrap() as int, reqs[i as int].align as int),
        is_aligned(s.nth_allocation(reqs, j).unwrap() as int, reqs[j as int].align as int),
        s.wf() ==> s.heap_start <= s.nth_allocation(reqs, i).unwrap(),
        s.nth_allocation(reqs, j).unwrap() + reqs[j as int].size <= s.heap_end,
{
    lemma_allocate_moves_forward(s.after_allocations(reqs, i), reqs[i as int]);
    lemma_allocate_moves_forward(s.after_allocations(reqs, j), reqs[j as int]);
    assert(s.after_allocations(reqs, i + 1) == s.after_allocations(reqs, i).allocate(
        reqs[i as int],
    ).0);
    lemma_cursor_never_retreats(s, reqs, i + 1, j);
    lemma_cursor_never_retreats(s, reqs, 0, i);
    assert(s.after_allocations(reqs, 0) == s);
}

/// Every served request adds one to the count of outstanding blocks.
proof fn lemma_served_requests_are_counted(s: BumpState, reqs: Seq<Layout>, n: nat)
    requires
        n <= reqs.len(),
        forall|i: nat| i < n ==> s.nth_allocation(reqs, i) is Some,
    ensures
        s.after_allocations(reqs, n).allocations == s.allocations + n,
    decreases n,
{
    if n > 0 {
        lemma_served_requests_are_counted(s, reqs, (n - 1) as nat);
        assert(s.nth_allocation(reqs, (n - 1) as nat) is Some);
        lemma_allocate_moves_forward(s.after_allocations(reqs, (n - 1) as nat), reqs[n - 1]);
    }
}

/// Freeing `n` blocks of a state that holds at least `n` lowers the count by `n`, and puts the
/// cursor back at the start of the region where the count reaches zero.
proof fn lemma_deallocations_count_down(s: BumpState, n: nat)
    requires
        n <= s.allocations,
    ensures
        s.after_deallocations(n).allocations == s.allocations - n,
        s.after_deallocations(n).heap_start == s.heap_start,
        s.after_deallocations(n).heap_end == s.heap_end,
        n == s.allocations && n > 0 ==> s.after_deallocations(n).next == s.heap_start,
        n < s.allocations ==> s.after_deallocations(n).next == s.next,
    decreases n,
{
    if n > 0 {
        lemma_deallocations_count_down(s, (n - 1) as nat);
    }
}

/// After `n` served requests and then `n` frees, whatever blocks the frees name and in whatever
/// order, the cursor is back at the start of the region and nothing is outstanding.
pub proof fn lemma_frees_reclaim_region(s: BumpState, reqs: Seq<Layout>)
    requires
        s.wf(),
        s.allocations == 0,
        forall|i: nat| i < reqs.len() ==> s.nth_allocation(reqs, i) is Some,
    ensures
        s.after_allocations(reqs, reqs.len()).allocations == reqs.len(),
        s.after_allocations(reqs, reqs.len()).after_deallocations(reqs.len()).next
            == s.heap_start,
        s.after_allocations(reqs, reqs.len()).after_deallocations(reqs.len()).allocations == 0,
        s.after_allocations(reqs, reqs.len()).after_deallocations(reqs.len()).wf(),
{
    let n = reqs.len();
    lemma_served_requests_are_counted(s, reqs, n);
    lemma_cursor_never_retreats(s, reqs, 0, n);
    lemma_deallocations_count_down(s.after_allocations(reqs, n), n);
}

} // verus!
