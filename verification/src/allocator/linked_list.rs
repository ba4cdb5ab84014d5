use super::arena::{encode_link, link_word, wf, word_link, Memory, WORD_SIZE};
use super::{
    align_up, is_aligned, power_of_two, lemma_power_of_two_bound,
    lemma_power_of_two_is_positive, lemma_round_up_is_least_multiple, round_up, Layout,
    LayoutError,
};
use vstd::arithmetic::power2::pow2;
use vstd::prelude::*;

verus! {

/// The number of bytes a free-list node takes at the start of the free chunk it describes: one
/// word for the chunk's size and one for the link to the next node.
pub const NODE_SIZE: usize = 16;

/// The alignment of a free-list node.
pub const NODE_ALIGN: usize = 8;

/// A chunk of memory: the `size` bytes from the address `start` on.
#[derive(Clone, Copy, Debug, PartialEq, Eq, Structural)]
pub struct Region {
    /// The address of the first byte.
    pub start: usize,
    /// The number of bytes.
    pub size: usize,
}

impl Region {
    /// The address one past the last byte.
    pub open spec fn end(self) -> int {
        self.start + self.size
    }

    /// Whether the two chunks share no byte.
    pub open spec fn apart(self, other: Region) -> bool {
        self.end() <= other.start || other.end() <= self.start
    }

    /// Whether every byte of this chunk is a byte of `outer`.
    pub open spec fn within(self, outer: Region) -> bool {
        outer.start <= self.start && self.end() <= outer.end()
    }
}

/// A free-list node, together with the address it was read from: it describes the free chunk of
/// `size` bytes that starts at `start`, and links to the node that follows it in the list.
#[derive(Clone, Copy, Debug, PartialEq, Eq, Structural)]
pub struct ListNode {
    /// The address of the node, which is the address of the chunk.
    pub start: usize,
    /// The size of the chunk, the node included.
    pub size: usize,
    /// The address of the next node of the list.
    pub next: Option<usize>,
}

impl ListNode {
    /// The chunk that the node describes.
    pub open spec fn region(self) -> Region {
        Region { start: self.start, size: self.size }
    }

    /// A node for the chunk of `size` bytes at `start`, linked to nothing.
    pub fn new(start: usize, size: usize) -> (r: Self)
        ensures
            r == (ListNode { start, size, next: None }),
    {
        ListNode { start, size, next: None }
    }

    /// The address of the first byte of the chunk.
    pub fn start_addr(&self) -> (r: usize)
        ensures
            r == self.start,
    {
        self.start
    }

    /// The address one past the last byte of the chunk.
    pub fn end_addr(&self) -> (r: usize)
        requires
            self.start + self.size <= usize::MAX,
        ensures
            r == self.region().end(),
    {
        self.start + self.size
    }
}

/// Where a block for `layout` starts inside the free chunk `region`, if the chunk is taken for
/// it.
///
/// The block starts at the chunk's start rounded up to the alignment. The chunk is taken where
/// the block ends inside it, whatever is left behind the block: a rest that is too small for a
/// node of its own is no reason to pass the chunk by.
pub open spec fn fit(region: Region, layout: Layout) -> Option<usize> {
    let start = round_up(region.start as int, layout.align as int);
    if power_of_two(layout.align as int) && start + layout.size <= region.end() {
        Some(start as usize)
    } else {
        None
    }
}

/// Tells whether the free chunk of `region` is taken for `layout`, and where the block then
/// starts.
pub fn alloc_from_region(region: &ListNode, layout: Layout) -> (r: Option<usize>)
    requires
        region.start + region.size <= usize::MAX,
    ensures
        r == fit(region.region(), layout),
        r matches Some(start) ==> {
            &&& region.start <= start
            &&& is_aligned(start as int, layout.align as int)
            &&& start + layout.size <= region.region().end()
        },
{
    proof {
        if power_of_two(layout.align as int) {
            lemma_power_of_two_is_positive(layout.align as int);
            lemma_round_up_is_least_multiple(region.start as int, layout.align as int);
        }
    }
    let alloc_start = match align_up(region.start_addr(), layout.align) {
        Some(start) => start,
        None => return None,
    };
    let alloc_end = match alloc_start.checked_add(layout.size) {
        Some(end) => end,
        None => return None,
    };

    if alloc_end > region.end_addr() {
        // region too small for the required allocation
        None
    } else {
        // Where the rest of the region behind the allocation is too small for a node, the
        // region is taken all the same: the caller gets a chunk that is larger than asked for.
        Some(alloc_start)
    }
}

/// The larger of two numbers.
pub open spec fn max(a: int, b: int) -> int {
    if a >= b {
        a
    } else {
        b
    }
}

/// The request that a block for `layout` is carved out with, so that the block can hold a
/// free-list node once it is freed: the alignment is raised to that of a node, the size is
/// rounded up to the alignment and raised to the size of a node. There is none where the
/// alignment is no power of two or the result is no valid request.
pub open spec fn normalize(layout: Layout) -> Option<Layout> {
    let align = max(layout.align as int, NODE_ALIGN as int);
    let size = max(round_up(layout.size as int, align), NODE_SIZE as int);
    if power_of_two(layout.align as int) && size <= isize::MAX - (align - 1) {
        Some(Layout { size: size as usize, align: align as usize })
    } else {
        None
    }
}

/// Of two powers of two the larger is a multiple of the smaller, so whatever is aligned to the
/// larger is aligned to the smaller.
pub proof fn lemma_power_of_two_multiple_of_smaller(small: int, large: int)
    requires
        power_of_two(small),
        power_of_two(large),
        small <= large,
    ensures
        large % small == 0,
        forall|x: int| #[trigger] is_aligned(x, large) ==> is_aligned(x, small),
{
    let ks = choose|k: nat| small == pow2(k);
    let kl = choose|k: nat| large == pow2(k);
    vstd::arithmetic::power2::lemma_pow2_pos(ks);
    if kl < ks {
        vstd::arithmetic::power2::lemma_pow2_strictly_increases(kl, ks);
    }
    let d = (kl - ks) as nat;
    vstd::arithmetic::power2::lemma_pow2_adds(ks, d);
    let f = pow2(d) as int;
    assert(large == small * f);
    vstd::arithmetic::div_mod::lemma_mod_multiples_basic(f, small);
    assert(small * f == f * small) by (nonlinear_arith);
    assert forall|x: int| #[trigger] is_aligned(x, large) implies is_aligned(x, small) by {
        vstd::arithmetic::div_mod::lemma_fundamental_div_mod(x, large);
        let q = x / large;
        assert(x == (q * f) * small) by (nonlinear_arith)
            requires
                x == large * q,
                large == small * f,
        ;
        vstd::arithmetic::div_mod::lemma_mod_multiples_basic(q * f, small);
    }
}

/// Eight is a power of two.
pub proof fn lemma_node_align_is_power_of_two()
    ensures
        power_of_two(NODE_ALIGN as int),
{
    vstd::arithmetic::power2::lemma2_to64();
    assert(NODE_ALIGN as int == pow2(3));
}

/// What the request that a block is carved out with has over the request it stands for.
pub proof fn lemma_normalize(layout: Layout)
    requires
        normalize(layout) is Some,
    ensures
        ({
            let n = normalize(layout).unwrap();
            &&& power_of_two(n.align as int)
            &&& n.align >= layout.align
            &&& n.align >= NODE_ALIGN
            &&& n.align % NODE_ALIGN == 0
            &&& n.size >= layout.size
            &&& n.size >= NODE_SIZE
            &&& n.size % NODE_ALIGN == 0
            &&& n.valid()
            &&& forall|x: int| #[trigger]
                is_aligned(x, n.align as int) ==> is_aligned(x, layout.align as int)
                    && is_aligned(x, NODE_ALIGN as int)
        }),
{
    let n = normalize(layout).unwrap();
    let align = n.align as int;
    lemma_node_align_is_power_of_two();
    lemma_power_of_two_is_positive(layout.align as int);
    lemma_round_up_is_least_multiple(layout.size as int, align);
    lemma_power_of_two_multiple_of_smaller(NODE_ALIGN as int, align);
    lemma_power_of_two_multiple_of_smaller(layout.align as int, align);
    let rounded = round_up(layout.size as int, align);
    assert(is_aligned(rounded, align));
    assert(is_aligned(rounded, NODE_ALIGN as int));
}

/// Turns `layout` into the request that its block is carved out with. See [`normalize`].
pub fn size_align(layout: Layout) -> (r: Result<Layout, LayoutError>)
    ensures
        r == match normalize(layout) {
            Some(n) => Ok::<Layout, LayoutError>(n),
            None => Err::<Layout, LayoutError>(LayoutError),
        },
{
    if !layout.align.is_power_of_two() {
        return Err(LayoutError);
    }
    proof {
        lemma_node_align_is_power_of_two();
        lemma_power_of_two_bound(layout.align);
    }
    // each allocated chunk starts with a node
    let align = if layout.align >= NODE_ALIGN {
        layout.align
    } else {
        NODE_ALIGN
    };
    proof {
        lemma_round_up_is_least_multiple(layout.size as int, align as int);
    }
    let padded = match align_up(layout.size, align) {
        Some(padded) => padded,
        None => return Err(LayoutError),
    };
    // the allocated chunk must be big enough for the node
    let size = if padded >= NODE_SIZE {
        padded
    } else {
        NODE_SIZE
    };
    Layout::from_size_align(size, align)
}

/// The word at `addr`, as a chunk.
pub open spec fn word_at(addr: usize) -> Region {
    Region { start: addr, size: WORD_SIZE }
}

/// Whether the chunk `r` can hold a free-list node and lies inside `heap`.
pub open spec fn region_ok(r: Region, heap: Region) -> bool {
    &&& r.start % NODE_ALIGN == 0
    &&& r.size >= NODE_SIZE
    &&& r.within(heap)
}

/// Whether `free` can be the free list of `heap`: every chunk can hold a node and lies inside
/// the heap, and no two chunks share a byte.
pub open spec fn free_list_ok(free: Seq<Region>, heap: Region) -> bool {
    &&& heap.end() <= usize::MAX
    &&& forall|i: int| 0 <= i < free.len() ==> region_ok(#[trigger] free[i], heap)
    &&& forall|i: int, j: int|
        0 <= i < j < free.len() ==> (#[trigger] free[i]).apart(#[trigger] free[j])
}

/// Whether the chunk `r` shares no byte with any chunk of `free`.
pub open spec fn clear_of(free: Seq<Region>, r: Region) -> bool {
    forall|i: int| 0 <= i < free.len() ==> (#[trigger] free[i]).apart(r)
}

/// The index of the first chunk of `free`, from index `from` on, that is taken for `layout`.
pub open spec fn first_fit(free: Seq<Region>, layout: Layout, from: int) -> Option<int>
    decreases free.len() - from,
{
    if from < 0 || from >= free.len() {
        None
    } else if fit(free[from], layout) is Some {
        Some(from)
    } else {
        first_fit(free, layout, from + 1)
    }
}

/// The free list after a block for `layout` has been asked for, and the address of the block,
/// if there is one.
///
/// The block is carved out of the first chunk that is taken for the normalized request. The
/// chunk leaves the list; what is left of it behind the block comes back as the new first
/// chunk where it can hold a node, and else goes with the block. Where the request has no
/// normalized form, or no chunk is taken for it, nothing changes.
pub open spec fn allocate_spec(free: Seq<Region>, layout: Layout) -> (Seq<Region>, Option<usize>) {
    match normalize(layout) {
        None => (free, None),
        Some(n) => match first_fit(free, n, 0) {
            None => (free, None),
            Some(i) => {
                let start = fit(free[i], n).unwrap();
                let end = start + n.size;
                let rest = free.remove(i);
                if free[i].end() - end >= NODE_SIZE {
                    (
                        seq![Region { start: end as usize, size: (free[i].end() - end) as usize }]
                            + rest,
                        Some(start),
                    )
                } else {
                    (rest, Some(start))
                }
            },
        },
    }
}

/// The chunk that a block for `layout` at `addr` takes up, where the request has a normalized
/// form.
pub open spec fn block_of(addr: usize, layout: Layout) -> Region {
    Region { start: addr, size: normalize(layout).unwrap().size }
}

/// The free list after the block for `layout` at `addr` has been freed: its chunk is the new
/// first chunk.
pub open spec fn deallocate_spec(free: Seq<Region>, addr: usize, layout: Layout) -> Seq<Region> {
    seq![block_of(addr, layout)] + free
}

/// What [`first_fit`] finds is a chunk that is taken, and no chunk before it is.
pub proof fn lemma_first_fit(free: Seq<Region>, layout: Layout, from: int)
    requires
        0 <= from,
    ensures
        match first_fit(free, layout, from) {
            Some(i) => {
                &&& from <= i < free.len()
                &&& fit(free[i], layout) is Some
                &&& forall|j: int| from <= j < i ==> fit(#[trigger] free[j], layout) is None
            },
            None => forall|j: int| from <= j < free.len() ==> fit(#[trigger] free[j], layout) is None,
        },
    decreases free.len() - from,
{
    if from < free.len() && fit(free[from], layout) is None {
        lemma_first_fit(free, layout, from + 1);
    }
}

/// A free list stays one when a chunk leaves it. What lay inside the chunk that left, or
/// shared no byte with the list before, shares no byte with the list after.
pub proof fn lemma_remove_keeps_ok(free: Seq<Region>, heap: Region, i: int)
    requires
        free_list_ok(free, heap),
        0 <= i < free.len(),
    ensures
        free_list_ok(free.remove(i), heap),
        forall|q: Region| q.within(free[i]) ==> #[trigger] clear_of(free.remove(i), q),
        forall|q: Region| clear_of(free, q) ==> #[trigger] clear_of(free.remove(i), q),
{
    let rest = free.remove(i);
    assert forall|a: int| 0 <= a < rest.len() implies region_ok(#[trigger] rest[a], heap) by {
        assert(rest[a] == free[if a < i { a } else { a + 1 }]);
    }
    assert forall|a: int, b: int| 0 <= a < b < rest.len() implies (#[trigger] rest[a]).apart(
        #[trigger] rest[b],
    ) by {
        let oa = if a < i { a } else { a + 1 };
        let ob = if b < i { b } else { b + 1 };
        assert(rest[a] == free[oa]);
        assert(rest[b] == free[ob]);
        assert(free[oa].apart(free[ob]));
    }
    assert forall|q: Region| q.within(free[i]) implies #[trigger] clear_of(rest, q) by {
        assert forall|a: int| 0 <= a < rest.len() implies (#[trigger] rest[a]).apart(q) by {
            let oa = if a < i { a } else { a + 1 };
            assert(rest[a] == free[oa]);
            if oa < i {
                assert(free[oa].apart(free[i]));
            } else {
                assert(free[i].apart(free[oa]));
            }
        }
    }
    assert forall|q: Region| clear_of(free, q) implies #[trigger] clear_of(rest, q) by {
        assert forall|a: int| 0 <= a < rest.len() implies (#[trigger] rest[a]).apart(q) by {
            let oa = if a < i { a } else { a + 1 };
            assert(rest[a] == free[oa]);
            assert(free[oa].apart(q));
        }
    }
}

/// A free list stays one when a chunk that shares no byte with it joins it at the front.
pub proof fn lemma_push_keeps_ok(free: Seq<Region>, heap: Region, r: Region)
    requires
        free_list_ok(free, heap),
        region_ok(r, heap),
        clear_of(free, r),
    ensures
        free_list_ok(seq![r] + free, heap),
        forall|q: Region| clear_of(free, q) && q.apart(r) ==> #[trigger] clear_of(seq![r] + free, q),
{
    let list = seq![r] + free;
    assert forall|a: int| 0 <= a < list.len() implies region_ok(#[trigger] list[a], heap) by {
        if a > 0 {
            assert(list[a] == free[a - 1]);
        }
    }
    assert forall|a: int, b: int| 0 <= a < b < list.len() implies (#[trigger] list[a]).apart(
        #[trigger] list[b],
    ) by {
        assert(list[b] == free[b - 1]);
        if a > 0 {
            assert(list[a] == free[a - 1]);
            assert(free[a - 1].apart(free[b - 1]));
        } else {
            assert(free[b - 1].apart(r));
        }
    }
    assert forall|q: Region| clear_of(free, q) && q.apart(r) implies #[trigger] clear_of(
        list,
        q,
    ) by {
        assert forall|a: int| 0 <= a < list.len() implies (#[trigger] list[a]).apart(q) by {
            if a > 0 {
                assert(list[a] == free[a - 1]);
                assert(free[a - 1].apart(q));
            }
        }
    }
}

/// Where chunk `i` is taken for the normalized form of `layout`, the block lies inside the chunk
/// at a node boundary, and what the chunk has left behind it, where that can hold a node, can
/// join the list that the chunk has left.
proof fn lemma_carve(free: Seq<Region>, heap: Region, layout: Layout, i: int)
    requires
        free_list_ok(free, heap),
        normalize(layout) is Some,
        0 <= i < free.len(),
        fit(free[i], normalize(layout).unwrap()) is Some,
    ensures
        ({
            let n = normalize(layout).unwrap();
            let start = fit(free[i], n).unwrap();
            let end = start + n.size;
            &&& free[i].start <= start
            &&& end <= free[i].end() <= usize::MAX
            &&& free[i].end() - end >= NODE_SIZE ==> {
                let tail = Region { start: end as usize, size: (free[i].end() - end) as usize };
                &&& region_ok(tail, heap)
                &&& clear_of(free.remove(i), tail)
            }
        }),
{
    let n = normalize(layout).unwrap();
    lemma_normalize(layout);
    assert(region_ok(free[i], heap));
    lemma_power_of_two_is_positive(n.align as int);
    lemma_round_up_is_least_multiple(free[i].start as int, n.align as int);
    let start = fit(free[i], n).unwrap();
    let end = start + n.size;
    assert(is_aligned(start as int, n.align as int));
    assert(is_aligned(start as int, NODE_ALIGN as int));
    lemma_remove_keeps_ok(free, heap, i);
    if free[i].end() - end >= NODE_SIZE {
        let tail = Region { start: end as usize, size: (free[i].end() - end) as usize };
        assert(tail.within(free[i]));
    }
}

/// What a request does to a free list.
///
/// The list stays a free list of the same heap. A block that is handed out is aligned as the
/// request asked and at least as large, lies inside one chunk of the old list, and shares no
/// byte with the new list. Whatever shared no byte with the old list shares none with the new
/// list, nor with the block.
pub proof fn lemma_allocate_spec(free: Seq<Region>, heap: Region, layout: Layout)
    requires
        free_list_ok(free, heap),
    ensures
        free_list_ok(allocate_spec(free, layout).0, heap),
        forall|q: Region| clear_of(free, q) ==> #[trigger] clear_of(allocate_spec(free, layout).0, q),
        allocate_spec(free, layout).1 is None ==> allocate_spec(free, layout).0 == free,
        allocate_spec(free, layout).1 matches Some(addr) ==> {
            let block = block_of(addr, layout);
            &&& normalize(layout) is Some
            &&& is_aligned(addr as int, layout.align as int)
            &&& block.size >= layout.size
            &&& block.size >= NODE_SIZE
            &&& region_ok(block, heap)
            &&& exists|i: int| 0 <= i < free.len() && block.within(#[trigger] free[i])
            &&& clear_of(allocate_spec(free, layout).0, block)
            &&& forall|q: Region| clear_of(free, q) ==> #[trigger] q.apart(block)
        },
{
    if let Some(n) = normalize(layout) {
        lemma_normalize(layout);
        lemma_first_fit(free, n, 0);
        if let Some(i) = first_fit(free, n, 0) {
            let chunk = free[i];
            assert(region_ok(chunk, heap));
            lemma_power_of_two_is_positive(n.align as int);
            lemma_round_up_is_least_multiple(chunk.start as int, n.align as int);
            let addr = fit(chunk, n).unwrap();
            let block = block_of(addr, layout);
            let end = addr + n.size;
            assert(is_aligned(addr as int, n.align as int));
            assert(is_aligned(addr as int, NODE_ALIGN as int));
            assert(block.within(chunk));
            let rest = free.remove(i);
            lemma_remove_keeps_ok(free, heap, i);
            assert(clear_of(rest, block));
            assert forall|q: Region| clear_of(free, q) implies #[trigger] q.apart(block) by {
                assert(chunk.apart(q));
            }
            if chunk.end() - end >= NODE_SIZE {
                let tail = Region { start: end as usize, size: (chunk.end() - end) as usize };
                assert(tail.within(chunk));
                assert(clear_of(rest, tail));
                lemma_push_keeps_ok(rest, heap, tail);
                assert(clear_of(seq![tail] + rest, block));
                assert forall|q: Region| clear_of(free, q) implies #[trigger] clear_of(
                    seq![tail] + rest,
                    q,
                ) by {
                    assert(chunk.apart(q));
                    assert(clear_of(rest, q));
                }
            }
        }
    }
}

/// What freeing a block does to a free list: the list stays a free list of the same heap, and
/// whatever shared no byte with the old list nor with the block shares none with the new list.
pub proof fn lemma_deallocate_spec(free: Seq<Region>, heap: Region, addr: usize, layout: Layout)
    requires
        free_list_ok(free, heap),
        normalize(layout) is Some,
        region_ok(block_of(addr, layout), heap),
        clear_of(free, block_of(addr, layout)),
    ensures
        free_list_ok(deallocate_spec(free, addr, layout), heap),
        forall|q: Region|
            clear_of(free, q) && q.apart(block_of(addr, layout)) ==> #[trigger] clear_of(
                deallocate_spec(free, addr, layout),
                q,
            ),
{
    lemma_push_keeps_ok(free, heap, block_of(addr, layout));
}

/// A block that has just been freed is the first to be handed out again: a request for the
/// same layout, made next, gets the block back and leaves the free list as it was before the
/// block was freed.
pub proof fn lemma_freed_block_is_reused_first(free: Seq<Region>, addr: usize, layout: Layout)
    requires
        normalize(layout) is Some,
        is_aligned(addr as int, normalize(layout).unwrap().align as int),
        block_of(addr, layout).end() <= usize::MAX,
    ensures
        allocate_spec(deallocate_spec(free, addr, layout), layout) == (free, Some(addr)),
{
    let n = normalize(layout).unwrap();
    let freed = deallocate_spec(free, addr, layout);
    lemma_normalize(layout);
    lemma_power_of_two_is_positive(n.align as int);
    assert(freed[0] == block_of(addr, layout));
    assert(fit(freed[0], n) == Some(addr));
    assert(first_fit(freed, n, 0) == Some(0int));
    assert(freed.remove(0) =~= free);
}

/// Whether some chunk of `free` has at least `bytes` bytes.
pub open spec fn has_room(free: Seq<Region>, bytes: int) -> bool {
    exists|i: int| 0 <= i < free.len() && (#[trigger] free[i]).size >= bytes
}

/// What a request can take from the room of a free list at most: the bytes of its normalized
/// form and those that are passed over to reach its alignment. A request without a normalized
/// form takes nothing.
pub open spec fn cost(layout: Layout) -> int {
    match normalize(layout) {
        Some(n) => n.size + n.align,
        None => 0,
    }
}

/// A request is served whenever some free chunk has room for its cost: success is owed
/// wherever the request has a normalized form and the free list is not too fragmented for it.
pub proof fn lemma_room_serves(free: Seq<Region>, heap: Region, layout: Layout)
    requires
        free_list_ok(free, heap),
        normalize(layout) is Some,
        has_room(free, cost(layout)),
    ensures
        allocate_spec(free, layout).1 is Some,
{
    let n = normalize(layout).unwrap();
    let i = choose|i: int| 0 <= i < free.len() && (#[trigger] free[i]).size >= cost(layout);
    lemma_normalize(layout);
    lemma_power_of_two_is_positive(n.align as int);
    lemma_round_up_is_least_multiple(free[i].start as int, n.align as int);
    assert(region_ok(free[i], heap));
    assert(fit(free[i], n) is Some);
    lemma_first_fit(free, n, 0);
}

/// A request takes no more from the room of a free list than its cost, and a block that is
/// freed takes nothing: where some chunk had `bytes` bytes before, some chunk has `bytes`
/// less the cost after, as long as that is enough for a node.
pub proof fn lemma_room_left(free: Seq<Region>, heap: Region, layout: Layout, bytes: int)
    requires
        free_list_ok(free, heap),
        has_room(free, bytes),
        bytes - cost(layout) >= NODE_SIZE,
    ensures
        has_room(allocate_spec(free, layout).0, bytes - cost(layout)),
        forall|addr: usize| has_room(#[trigger] deallocate_spec(free, addr, layout), bytes),
{
    let j = choose|j: int| 0 <= j < free.len() && (#[trigger] free[j]).size >= bytes;
    assert forall|addr: usize| has_room(#[trigger] deallocate_spec(free, addr, layout), bytes) by {
        let freed = deallocate_spec(free, addr, layout);
        assert(freed[j + 1] == free[j]);
    }
    let after = allocate_spec(free, layout).0;
    if let Some(n) = normalize(layout) {
        lemma_normalize(layout);
        lemma_first_fit(free, n, 0);
        if let Some(i) = first_fit(free, n, 0) {
            let rest = free.remove(i);
            let end = fit(free[i], n).unwrap() + n.size;
            assert(region_ok(free[i], heap));
            lemma_power_of_two_is_positive(n.align as int);
            lemma_round_up_is_least_multiple(free[i].start as int, n.align as int);
            if i == j {
                let tail = Region { start: end as usize, size: (free[i].end() - end) as usize };
                assert(after[0] == tail);
            } else {
                let k = if j < i { j } else { j - 1 };
                assert(rest[k] == free[j]);
                if free[i].end() - end >= NODE_SIZE {
                    assert(after[k + 1] == rest[k]);
                } else {
                    assert(after[k] == rest[k]);
                }
            }
        } else {
            assert(after[j] == free[j]);
        }
    } else {
        assert(after[j] == free[j]);
    }
}

/// Whether `live` can be the blocks that are handed out and not freed yet, beside the free list
/// `free`: every one of them lies inside the heap and shares no byte with a free chunk, and no
/// two of them share a byte.
pub open spec fn live_ok(free: Seq<Region>, heap: Region, live: Set<Region>) -> bool {
    &&& forall|b: Region| #[trigger] live.contains(b) ==> b.within(heap) && clear_of(free, b)
    &&& forall|b: Region, c: Region|
        #[trigger] live.contains(b) && #[trigger] live.contains(c) && b != c ==> b.apart(c)
}

/// A block that is handed out lies inside the heap and shares no byte with a block that is
/// live already; with it among them, the live blocks still are as [`live_ok`] says.
pub proof fn lemma_allocation_is_apart_from_live_blocks(
    free: Seq<Region>,
    heap: Region,
    live: Set<Region>,
    layout: Layout,
)
    requires
        free_list_ok(free, heap),
        live_ok(free, heap, live),
    ensures
        free_list_ok(allocate_spec(free, layout).0, heap),
        match allocate_spec(free, layout).1 {
            Some(addr) => {
                let block = block_of(addr, layout);
                &&& block.within(heap)
                &&& forall|b: Region| #[trigger] live.contains(b) ==> b.apart(block)
                &&& live_ok(allocate_spec(free, layout).0, heap, live.insert(block))
            },
            None => live_ok(allocate_spec(free, layout).0, heap, live),
        },
{
    lemma_allocate_spec(free, heap, layout);
}

/// A live block meets what [`LinkedListAllocator::deallocate`] asks of the block it is given,
/// and once it is freed the other live blocks still are as [`live_ok`] says.
pub proof fn lemma_deallocation_keeps_live_blocks_apart(
    free: Seq<Region>,
    heap: Region,
    live: Set<Region>,
    addr: usize,
    layout: Layout,
)
    requires
        free_list_ok(free, heap),
        live_ok(free, heap, live),
        normalize(layout) is Some,
        addr % NODE_ALIGN == 0,
        live.contains(block_of(addr, layout)),
    ensures
        region_ok(block_of(addr, layout), heap),
        clear_of(free, block_of(addr, layout)),
        free_list_ok(deallocate_spec(free, addr, layout), heap),
        live_ok(deallocate_spec(free, addr, layout), heap, live.remove(block_of(addr, layout))),
{
    lemma_normalize(layout);
    lemma_deallocate_spec(free, heap, addr, layout);
    let block = block_of(addr, layout);
    assert forall|b: Region| #[trigger] live.remove(block).contains(b) implies clear_of(
        deallocate_spec(free, addr, layout),
        b,
    ) by {
        assert(live.contains(b));
        assert(b.apart(block));
    }
}

/// The link to chunk `i` of `free`: its address, or nothing where the list has no such chunk.
pub open spec fn link_at(free: Seq<Region>, i: int) -> Option<usize> {
    if 0 <= i < free.len() {
        Some(free[i].start)
    } else {
        None
    }
}

/// A linked list allocator that embeds its data structures into free chunks. This allocator
/// does not coalesce free memory chunks.
pub struct LinkedListAllocator<M: Memory> {
    /// a dummy node of size 0, always the first node of the free list
    head: ListNode,
    /// the memory of the heap, which holds the other nodes
    arena: M,
    /// the chunks of the free list, in the order of the list
    free: Ghost<Seq<Region>>,
}

impl<M: Memory> LinkedListAllocator<M> {
    /// The heap region that the allocator was given.
    pub closed spec fn heap(&self) -> Region {
        Region { start: self.arena.start(), size: self.arena.size() }
    }

    /// The free chunks, in the order in which the free list holds them.
    pub closed spec fn free_list(&self) -> Seq<Region> {
        self.free@
    }

    /// The word that the heap holds at `addr`.
    pub closed spec fn word(&self, addr: usize) -> usize {
        self.arena.word(addr)
    }

    /// The dummy node that the free list starts with. It lies outside the heap and describes
    /// no chunk.
    pub closed spec fn head(&self) -> ListNode {
        self.head
    }

    /// Whether `addr` is the address of a whole word of the heap.
    pub open spec fn holds(&self, addr: usize) -> bool {
        &&& addr % WORD_SIZE == 0
        &&& word_at(addr).within(self.heap())
    }

    /// Whether the heap holds, at the start of chunk `i`, the node that describes the chunk
    /// and links to the next one.
    spec fn node_stored(&self, i: int) -> bool {
        let r = self.free@[i];
        &&& self.arena.word(r.start) == r.size
        &&& self.arena.word((r.start + WORD_SIZE) as usize) == encode_link(
            link_at(self.free@, i + 1),
        )
    }

    /// The free list is what the memory of the heap holds: the dummy head links to the first
    /// chunk, every chunk starts with its node, and the chunks are as [`free_list_ok`] says.
    pub closed spec fn wf(&self) -> bool {
        &&& wf(&self.arena)
        &&& self.head.start == 0
        &&& self.head.size == 0
        &&& self.head.next == link_at(self.free@, 0)
        &&& free_list_ok(self.free@, self.heap())
        &&& forall|i: int| 0 <= i < self.free@.len() ==> #[trigger] self.node_stored(i)
    }

    /// The free list of a well-formed allocator is as [`free_list_ok`] says.
    pub proof fn lemma_free_list_ok(&self)
        requires
            self.wf(),
        ensures
            free_list_ok(self.free_list(), self.heap()),
            self.heap().end() <= usize::MAX,
            self.heap().start % NODE_ALIGN == 0,
    {
    }

    /// The dummy head has size zero, so that no request is ever served from it, and links to
    /// the first free chunk: the list that starts at the head is the free list.
    pub proof fn lemma_head_links_to_first_chunk(&self)
        requires
            self.wf(),
        ensures
            self.head().size == 0,
            self.head().next == link_at(self.free_list(), 0),
            forall|layout: Layout|
                normalize(layout) is Some ==> #[trigger] fit(
                    self.head().region(),
                    normalize(layout).unwrap(),
                ) is None,
    {
        assert forall|layout: Layout| normalize(layout) is Some implies #[trigger] fit(
            self.head().region(),
            normalize(layout).unwrap(),
        ) is None by {
            let n = normalize(layout).unwrap();
            lemma_normalize(layout);
            lemma_power_of_two_is_positive(n.align as int);
            lemma_round_up_is_least_multiple(0, n.align as int);
        }
    }

    /// Every free chunk starts with its node: its first word holds the size of the chunk, its
    /// second word the link to the chunk that follows it in the free list.
    pub proof fn lemma_nodes_are_stored(&self)
        requires
            self.wf(),
        ensures
            forall|i: int|
                0 <= i < self.free_list().len() ==> {
                    &&& self.word((#[trigger] self.free_list()[i]).start) == self.free_list()[i].size
                    &&& self.word((self.free_list()[i].start + WORD_SIZE) as usize) == encode_link(
                        link_at(self.free_list(), i + 1),
                    )
                },
    {
        assert forall|i: int| 0 <= i < self.free_list().len() implies {
            &&& self.word((#[trigger] self.free_list()[i]).start) == self.free_list()[i].size
            &&& self.word((self.free_list()[i].start + WORD_SIZE) as usize) == encode_link(
                link_at(self.free_list(), i + 1),
            )
        } by {
            assert(self.node_stored(i));
        }
    }

    /// Constructs an empty allocator. No memory is attached to it at this point.
    pub fn new() -> (r: Self)
        ensures
            r.wf(),
            r.free_list() == Seq::<Region>::empty(),
            r.heap() == (Region { start: 0, size: 0 }),
    {
        LinkedListAllocator {
            // a dummy list node with size 0, this dummy node will always be the first node in
            // the free list
            head: ListNode::new(0, 0),
            arena: M::empty(),
            free: Ghost(Seq::empty()),
        }
    }

    /// Initializes the allocator with the given heap bounds: the whole heap is one free chunk.
    ///
    /// The caller hands over a range that nothing else uses, and does so once.
    pub fn init(&mut self, heap_start: usize, heap_size: usize)
        requires
            old(self).wf(),
            old(self).heap().size == 0,
            heap_start % NODE_ALIGN == 0,
            heap_size >= NODE_SIZE,
            heap_start + heap_size <= usize::MAX,
        ensures
            final(self).wf(),
            final(self).heap() == (Region { start: heap_start, size: heap_size }),
            final(self).free_list() == seq![Region { start: heap_start, size: heap_size }],
    {
        proof {
            if self.free@.len() > 0 {
                assert(region_ok(self.free@[0], self.heap()));
            }
        }
        self.arena = M::over(heap_start, heap_size);
        self.add_free_region(heap_start, heap_size);
        proof {
            assert(old(self).free_list() =~= Seq::<Region>::empty());
            assert(final(self).free_list() =~= seq![Region { start: heap_start, size: heap_size }]);
        }
    }

    /// Adds the `size`-byte free chunk that starts at `addr` to the front of the free list.
    ///
    /// The chunk must be able to hold a node, lie inside the heap and share no byte with a
    /// chunk that is free already. The node is written to its first two words; no other word
    /// of the heap changes.
    pub fn add_free_region(&mut self, addr: usize, size: usize)
        requires
            old(self).wf(),
            region_ok(Region { start: addr, size }, old(self).heap()),
            clear_of(old(self).free_list(), Region { start: addr, size }),
        ensures
            final(self).wf(),
            final(self).heap() == old(self).heap(),
            final(self).free_list() == seq![Region { start: addr, size }] + old(self).free_list(),
            forall|a: usize|
                old(self).holds(a) && a != addr && a != addr + WORD_SIZE
                    ==> #[trigger] final(self).word(a) == old(self).word(a),
    {
        let ghost before = *self;
        let ghost chunk = Region { start: addr, size };
        let next = self.head.next;
        self.arena.write(addr, size);
        self.arena.write(addr + WORD_SIZE, link_word(next));
        self.head.next = Some(addr);
        self.free = Ghost(seq![chunk] + before.free@);
        proof {
            let free = self.free@;
            assert(free[0] == chunk);
            assert forall|i: int| 0 <= i < free.len() implies region_ok(
                #[trigger] free[i],
                self.heap(),
            ) by {
                if i > 0 {
                    assert(free[i] == before.free@[i - 1]);
                }
            }
            assert forall|i: int, j: int| 0 <= i < j < free.len() implies (#[trigger] free[i]).apart(
                #[trigger] free[j],
            ) by {
                assert(free[j] == before.free@[j - 1]);
                if i > 0 {
                    assert(free[i] == before.free@[i - 1]);
                }
            }
            assert forall|i: int| 0 <= i < free.len() implies #[trigger] self.node_stored(i) by {
                if i > 0 {
                    let r = before.free@[i - 1];
                    assert(free[i] == r);
                    assert(before.node_stored(i - 1));
                    assert(r.apart(chunk));
                    assert(region_ok(r, before.heap()));
                    assert(link_at(free, i + 1) == link_at(before.free@, i));
                } else {
                    assert(link_at(free, 1) == link_at(before.free@, 0));
                }
            }
        }
    }

    /// Reads the node at the start of chunk `i` of the free list.
    fn read_node(&self, addr: usize, Ghost(i): Ghost<int>) -> (r: ListNode)
        requires
            self.wf(),
            0 <= i < self.free_list().len(),
            addr == self.free_list()[i].start,
        ensures
            r.start == addr,
            r.region() == self.free_list()[i],
            r.next == link_at(self.free_list(), i + 1),
            r.region().end() <= usize::MAX,
    {
        proof {
            assert(region_ok(self.free@[i], self.heap()));
            assert(self.node_stored(i));
            if i + 1 < self.free@.len() {
                assert(region_ok(self.free@[i + 1], self.heap()));
            }
        }
        let size = self.arena.read(addr);
        let next = word_link(self.arena.read(addr + WORD_SIZE));
        ListNode { start: addr, size, next }
    }

    /// Looks for a free chunk that is taken for `layout` and removes it from the list.
    ///
    /// The list is walked from the front and the first chunk that is taken wins. Returns the
    /// node of that chunk, cut loose from the list, and the start address of the block.
    /// Only the link that led to the chunk is rewritten; where no chunk is taken, nothing
    /// changes.
    pub fn find_region(&mut self, layout: Layout) -> (r: Option<(ListNode, usize)>)
        requires
            old(self).wf(),
        ensures
            final(self).wf(),
            final(self).heap() == old(self).heap(),
            match first_fit(old(self).free_list(), layout, 0) {
                None => r is None && final(self).free_list() == old(self).free_list(),
                Some(i) => {
                    &&& 0 <= i < old(self).free_list().len()
                    &&& r == Some(
                        (
                            ListNode {
                                start: old(self).free_list()[i].start,
                                size: old(self).free_list()[i].size,
                                next: None,
                            },
                            fit(old(self).free_list()[i], layout).unwrap(),
                        ),
                    )
                    &&& final(self).free_list() == old(self).free_list().remove(i)
                },
            },
            forall|a: usize|
                old(self).holds(a) && clear_of(old(self).free_list(), word_at(a))
                    ==> #[trigger] final(self).word(a) == old(self).word(a),
    {
        let ghost before = *self;
        let ghost free = self.free@;
        let mut prev: Option<usize> = None;
        let mut link = self.head.next;
        let ghost mut k: int = 0;
        loop
            invariant
                *self == before,
                before == *old(self),
                before.wf(),
                free == before.free@,
                0 <= k <= free.len(),
                link == link_at(free, k),
                prev == link_at(free, k - 1),
                first_fit(free, layout, 0) == first_fit(free, layout, k),
            decreases free.len() - k,
        {
            let addr = match link {
                Some(addr) => addr,
                None => {
                    return None;
                },
            };
            let node = self.read_node(addr, Ghost(k));
            match alloc_from_region(&node, layout) {
                Some(alloc_start) => {
                    // remove the chosen node from the free list
                    match prev {
                        None => {
                            self.head.next = node.next;
                        },
                        Some(prev_addr) => {
                            proof {
                                assert(region_ok(free[k - 1], before.heap()));
                            }
                            self.arena.write(prev_addr + WORD_SIZE, link_word(node.next));
                        },
                    }
                    self.free = Ghost(free.remove(k));
                    proof {
                        before.lemma_unlinked(*self, k);
                    }
                    return Some((ListNode::new(addr, node.size), alloc_start));
                },
                None => {
                    prev = link;
                    link = node.next;
                    proof {
                        k = k + 1;
                    }
                },
            }
        }
    }

    /// After the link that led to chunk `k` has been set to what chunk `k` linked to, the
    /// free list is the old one without chunk `k`.
    proof fn lemma_unlinked(self, after: Self, k: int)
        requires
            self.wf(),
            0 <= k < self.free@.len(),
            after.free@ == self.free@.remove(k),
            wf(&after.arena),
            after.heap() == self.heap(),
            after.head.start == 0,
            after.head.size == 0,
            k == 0 ==> after.head.next == link_at(self.free@, 1) && forall|a: usize|
                self.holds(a) ==> #[trigger] after.arena.word(a) == self.arena.word(a),
            k > 0 ==> after.head.next == self.head.next && after.arena.word(
                (self.free@[k - 1].start + WORD_SIZE) as usize,
            ) == encode_link(link_at(self.free@, k + 1)) && forall|a: usize|
                self.holds(a) && a != self.free@[k - 1].start + WORD_SIZE
                    ==> #[trigger] after.arena.word(a) == self.arena.word(a),
        ensures
            after.wf(),
            forall|a: usize|
                self.holds(a) && clear_of(self.free_list(), word_at(a))
                    ==> #[trigger] after.word(a) == self.word(a),
    {
        let old_free = self.free@;
        let free = after.free@;
        assert forall|i: int| 0 <= i < free.len() implies region_ok(
            #[trigger] free[i],
            after.heap(),
        ) by {
            let oi = if i < k { i } else { i + 1 };
            assert(free[i] == old_free[oi]);
            assert(region_ok(old_free[oi], self.heap()));
        }
        assert forall|i: int, j: int| 0 <= i < j < free.len() implies (#[trigger] free[i]).apart(
            #[trigger] free[j],
        ) by {
            let oi = if i < k { i } else { i + 1 };
            let oj = if j < k { j } else { j + 1 };
            assert(free[i] == old_free[oi]);
            assert(free[j] == old_free[oj]);
            assert(old_free[oi].apart(old_free[oj]));
        }
        assert forall|i: int| 0 <= i < free.len() implies #[trigger] after.node_stored(i) by {
            let oi = if i < k { i } else { i + 1 };
            let r = old_free[oi];
            assert(free[i] == r);
            assert(self.node_stored(oi));
            assert(region_ok(r, self.heap()));
            if k > 0 {
                let p = old_free[k - 1];
                assert(region_ok(p, self.heap()));
                if oi != k - 1 {
                    if oi < k - 1 {
                        assert(old_free[oi].apart(old_free[k - 1]));
                    } else {
                        assert(old_free[k - 1].apart(old_free[oi]));
                    }
                }
            }
            if i + 1 < free.len() {
                assert(free[i + 1] == old_free[if i + 1 < k { i + 1 } else { i + 2 }]);
            }
        }
        assert forall|a: usize|
            self.holds(a) && clear_of(self.free_list(), word_at(a)) implies #[trigger] after.word(a)
            == self.word(a) by {
            if k > 0 {
                assert(old_free[k - 1].apart(word_at(a)));
                assert(region_ok(old_free[k - 1], self.heap()));
            }
        }
        if free.len() > 0 {
            assert(free[0] == old_free[if 0 < k { 0int } else { 1int }]);
        }
    }

    /// Serves `layout` from the first free chunk that is taken for it.
    ///
    /// The request is normalized first, so that the block can hold a node once it is freed.
    /// What the chunk has left behind the block goes back to the front of the free list where
    /// it can hold a node; a smaller rest goes with the block.
    /// Returns `None`, and changes nothing, where the request has no normalized form or no
    /// chunk is taken. Only words of free chunks are written.
    pub fn allocate(&mut self, layout: Layout) -> (r: Option<usize>)
        requires
            old(self).wf(),
        ensures
            final(self).wf(),
            final(self).heap() == old(self).heap(),
            (final(self).free_list(), r) == allocate_spec(old(self).free_list(), layout),
            forall|a: usize|
                old(self).holds(a) && clear_of(old(self).free_list(), word_at(a))
                    ==> #[trigger] final(self).word(a) == old(self).word(a),
            r matches Some(addr) ==> {
                &&& normalize(layout) is Some
                &&& is_aligned(addr as int, layout.align as int)
                &&& block_of(addr, layout).size >= layout.size
                &&& block_of(addr, layout).size >= NODE_SIZE
                &&& region_ok(block_of(addr, layout), old(self).heap())
                &&& clear_of(final(self).free_list(), block_of(addr, layout))
            },
    {
        let ghost before = *self;
        let normalized = match size_align(layout) {
            Ok(normalized) => normalized,
            Err(_) => {
                return None;
            },
        };
        let r = match self.find_region(normalized) {
            Some((region, alloc_start)) => {
                let ghost i = first_fit(before.free@, normalized, 0).unwrap();
                let ghost found = *self;
                proof {
                    lemma_first_fit(before.free@, normalized, 0);
                    lemma_carve(before.free@, before.heap(), layout, i);
                }
                let alloc_end = alloc_start + normalized.size;
                let excess_size = region.end_addr() - alloc_end;
                if excess_size >= NODE_SIZE {
                    self.add_free_region(alloc_end, excess_size);
                    proof {
                        assert forall|a: usize|
                            before.holds(a) && clear_of(
                                before.free@,
                                word_at(a),
                            ) implies #[trigger] self.word(a) == before.word(a) by {
                            assert(before.free@[i].apart(word_at(a)));
                            assert(found.word(a) == before.word(a));
                        }
                    }
                }
                Some(alloc_start)
            },
            None => None,
        };
        proof {
            lemma_allocate_spec(before.free@, before.heap(), layout);
        }
        r
    }

    /// Takes back the block for `layout` at `addr`: its chunk becomes the first of the free
    /// list.
    ///
    /// The caller names a block exactly as it was handed out, and one that has not been freed
    /// since: its chunk lies inside the heap and shares no byte with a free chunk. The node
    /// is written to the first two words of the block; no other word of the heap changes.
    pub fn deallocate(&mut self, addr: usize, layout: Layout)
        requires
            old(self).wf(),
            normalize(layout) is Some,
            region_ok(block_of(addr, layout), old(self).heap()),
            clear_of(old(self).free_list(), block_of(addr, layout)),
        ensures
            final(self).wf(),
            final(self).heap() == old(self).heap(),
            final(self).free_list() == deallocate_spec(old(self).free_list(), addr, layout),
            forall|a: usize|
                old(self).holds(a) && a != addr && a != addr + WORD_SIZE
                    ==> #[trigger] final(self).word(a) == old(self).word(a),
    {
        let aligned = size_align(layout).unwrap();
        self.add_free_region(addr, aligned.size);
    }

    /// Reads the word of the heap at `addr`.
    pub fn read(&self, addr: usize) -> (r: usize)
        requires
            self.wf(),
            self.holds(addr),
        ensures
            r == self.word(addr),
    {
        self.arena.read(addr)
    }

    /// Writes `value` to the word of the heap at `addr`, which must lie outside every free
    /// chunk. No other word changes, and neither does the free list.
    pub fn write(&mut self, addr: usize, value: usize)
        requires
            old(self).wf(),
            old(self).holds(addr),
            clear_of(old(self).free_list(), word_at(addr)),
        ensures
            final(self).wf(),
            final(self).heap() == old(self).heap(),
            final(self).free_list() == old(self).free_list(),
            final(self).word(addr) == value,
            forall|a: usize|
                old(self).holds(a) && a != addr ==> #[trigger] final(self).word(a) == old(self).word(a),
    {
        let ghost before = *self;
        self.arena.write(addr, value);
        proof {
            assert forall|i: int| 0 <= i < self.free@.len() implies #[trigger] self.node_stored(
                i,
            ) by {
                assert(before.node_stored(i));
                assert(before.free@[i].apart(word_at(addr)));
                assert(region_ok(before.free@[i], before.heap()));
            }
        }
    }
}

} // verus!
