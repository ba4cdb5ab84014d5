use super::arena::{encode_link, link_word, word_link, Memory, NO_LINK, WORD_SIZE};
use super::linked_list::{
    allocate_spec, block_of, clear_of, deallocate_spec, free_list_ok, has_room,
    lemma_allocate_spec, lemma_deallocate_spec, lemma_normalize, max, normalize, region_ok,
    word_at, LinkedListAllocator, Region, NODE_ALIGN, NODE_SIZE,
};
use super::{is_aligned, power_of_two, Layout};
use vstd::arithmetic::power2::pow2;
use vstd::prelude::*;

verus! {

/// The number of block sizes.
pub const CLASSES: usize = 9;

/// The block sizes to use. Each block has alignment equal to its size, so the block sizes are
/// powers of 2.
pub const BLOCK_SIZES: [usize; 9] = [8, 16, 32, 64, 128, 256, 512, 1024, 2048];

/// The first class, from class `from` on, whose blocks hold `need` bytes.
pub open spec fn first_class(need: int, from: int) -> Option<usize>
    decreases CLASSES - from,
{
    if from < 0 || from >= CLASSES {
        None
    } else if BLOCK_SIZES[from] >= need {
        Some(from as usize)
    } else {
        first_class(need, from + 1)
    }
}

/// The class that serves `layout`: the smallest whose blocks are at least as large as both
/// the size and the alignment asked for.
pub open spec fn class_of(layout: Layout) -> Option<usize> {
    first_class(max(layout.size as int, layout.align as int), 0)
}

/// Choose a proper block size for the given layout.
///
/// Returns an index into [`BLOCK_SIZES`], `None` if no block size in [`BLOCK_SIZES`] can fit
/// the required layout.
pub fn list_index(layout: &Layout) -> (r: Option<usize>)
    ensures
        r == class_of(*layout),
        r is Some <==> layout.size <= 2048 && layout.align <= 2048,
        r matches Some(c) ==> {
            &&& c < CLASSES
            &&& BLOCK_SIZES[c as int] >= layout.size
            &&& BLOCK_SIZES[c as int] >= layout.align
            &&& c > 0 ==> BLOCK_SIZES[c - 1] < layout.size || BLOCK_SIZES[c - 1] < layout.align
        },
{
    // to make sure the alignment of the block is greater or equal to the alignment of the layout
    let required_block_size = if layout.size >= layout.align {
        layout.size
    } else {
        layout.align
    };
    let mut index: usize = 0;
    while index < CLASSES
        invariant
            index <= CLASSES,
            required_block_size == max(layout.size as int, layout.align as int),
            class_of(*layout) == first_class(required_block_size as int, index as int),
            forall|c: int| 0 <= c < index ==> BLOCK_SIZES[c] < required_block_size,
        decreases CLASSES - index,
    {
        if BLOCK_SIZES[index] >= required_block_size {
            return Some(index);
        }
        index += 1;
    }
    None
}

/// Every block size is a power of two, and a multiple of the word size.
pub proof fn lemma_block_sizes(c: int)
    requires
        0 <= c < CLASSES,
    ensures
        power_of_two(BLOCK_SIZES[c] as int),
        BLOCK_SIZES[c] >= WORD_SIZE,
        BLOCK_SIZES[c] % WORD_SIZE == 0,
        BLOCK_SIZES[c] <= 2048,
        forall|x: int| #[trigger]
            is_aligned(x, BLOCK_SIZES[c] as int) ==> is_aligned(x, WORD_SIZE as int),
{
    vstd::arithmetic::power2::lemma2_to64();
    assert(BLOCK_SIZES[c] as int == pow2((c + 3) as nat));
    super::linked_list::lemma_node_align_is_power_of_two();
    super::linked_list::lemma_power_of_two_multiple_of_smaller(
        NODE_ALIGN as int,
        BLOCK_SIZES[c] as int,
    );
}

/// The request that a block of class `c` is asked of the fallback heap with: the size and the
/// alignment are the block size.
pub open spec fn class_layout(c: int) -> Layout {
    Layout { size: BLOCK_SIZES[c], align: BLOCK_SIZES[c] }
}

/// The chunk that a block of class `c` at `addr` takes up.
pub open spec fn class_block(c: int, addr: usize) -> Region {
    Region { start: addr, size: BLOCK_SIZES[c] }
}

/// The chunk that a block for `layout` at `addr` takes up: a block of the class that serves
/// the request, or else the block that the fallback heap carves out.
pub open spec fn block_for(addr: usize, layout: Layout) -> Region {
    match class_of(layout) {
        Some(c) => class_block(c as int, addr),
        None => block_of(addr, layout),
    }
}

/// The link to block `k` of `list`: its address, or nothing where the list has no such block.
pub open spec fn block_at(list: Seq<usize>, k: int) -> Option<usize> {
    if 0 <= k < list.len() {
        Some(list[k])
    } else {
        None
    }
}

/// What a [`FixedSizeBlockAllocator`] holds free: the free chunks of its fallback heap, and for
/// each class the addresses of its free blocks, in the order of their list.
pub struct FixedState {
    /// The free list of the fallback heap.
    pub free: Seq<Region>,
    /// The free blocks of each class.
    pub lists: Seq<Seq<usize>>,
}

/// What is free with the free list of the fallback heap replaced by `free`.
pub open spec fn with_free(s: FixedState, free: Seq<Region>) -> FixedState {
    FixedState { free, ..s }
}

impl FixedState {
    /// Whether `c` and `k` name a free block: block `k` of class `c`.
    pub open spec fn has(self, c: int, k: int) -> bool {
        0 <= c < CLASSES && 0 <= k < self.lists[c].len()
    }

    /// Whether the chunk `r` shares no byte with anything that is free: neither with a chunk
    /// of the fallback heap nor with a block of a class.
    pub open spec fn shares_no_free_byte(self, r: Region) -> bool {
        &&& clear_of(self.free, r)
        &&& forall|c: int, k: int|
            self.has(c, k) ==> class_block(c, #[trigger] self.lists[c][k]).apart(r)
    }

    /// Whether this can be what an allocator over `heap` holds free: the free list is one of
    /// `heap`, every free block is aligned to its size, lies inside the heap and shares no
    /// byte with a free chunk, and no two free blocks share a byte.
    pub open spec fn ok(self, heap: Region) -> bool {
        &&& free_list_ok(self.free, heap)
        &&& self.lists.len() == CLASSES
        &&& forall|c: int, k: int|
            self.has(c, k) ==> {
                let block = class_block(c, #[trigger] self.lists[c][k]);
                &&& is_aligned(block.start as int, BLOCK_SIZES[c] as int)
                &&& block.within(heap)
                &&& clear_of(self.free, block)
            }
        &&& forall|c: int, k: int, d: int, m: int|
            self.has(c, k) && self.has(d, m) && (c != d || k != m) ==> class_block(
                c,
                #[trigger] self.lists[c][k],
            ).apart(class_block(d, #[trigger] self.lists[d][m]))
    }

    /// With the first block of class `c` taken off its list.
    pub open spec fn pop(self, c: int) -> FixedState {
        FixedState { lists: self.lists.update(c, self.lists[c].drop_first()), ..self }
    }

    /// With `addr` put in front of the list of class `c`.
    pub open spec fn push(self, c: int, addr: usize) -> FixedState {
        FixedState { lists: self.lists.update(c, seq![addr] + self.lists[c]), ..self }
    }

    /// What is free after a block for `layout` has been asked for, and the address of the
    /// block, if there is one.
    ///
    /// A request whose alignment is no power of two is not served. A request that a class
    /// serves takes the first free block of that class. Where the class has none, a block of
    /// the class's size, aligned to its size, is asked of the fallback heap. A request that
    /// no class serves is passed to the fallback heap as it is.
    pub open spec fn allocate(self, layout: Layout) -> (FixedState, Option<usize>) {
        if !power_of_two(layout.align as int) {
            (self, None)
        } else {
            match class_of(layout) {
                Some(c) => if self.lists[c as int].len() > 0 {
                    (self.pop(c as int), Some(self.lists[c as int][0]))
                } else {
                    (
                        with_free(self, allocate_spec(self.free, class_layout(c as int)).0),
                        allocate_spec(self.free, class_layout(c as int)).1,
                    )
                },
                None => (
                    with_free(self, allocate_spec(self.free, layout).0),
                    allocate_spec(self.free, layout).1,
                ),
            }
        }
    }

    /// What is free after the block for `layout` at `addr` has been freed: the block joins
    /// the front of the list of the class that serves the request, or goes back to the
    /// fallback heap where no class does.
    pub open spec fn deallocate(self, addr: usize, layout: Layout) -> FixedState {
        match class_of(layout) {
            Some(c) => self.push(c as int, addr),
            None => with_free(self, deallocate_spec(self.free, addr, layout)),
        }
    }
}

/// Taking the first free block of a class leaves what is free well-formed. The block shares no
/// byte with what is still free, and neither does anything that shared none before.
pub proof fn lemma_pop(s: FixedState, heap: Region, c: int)
    requires
        s.ok(heap),
        s.has(c, 0),
    ensures
        s.pop(c).ok(heap),
        s.pop(c).shares_no_free_byte(class_block(c, s.lists[c][0])),
        forall|q: Region| s.shares_no_free_byte(q) ==> #[trigger] s.pop(c).shares_no_free_byte(q),
{
    let t = s.pop(c);
    let block = class_block(c, s.lists[c][0]);
    assert forall|d: int, m: int| t.has(d, m) implies s.has(d, if d == c { m + 1 } else { m })
        && #[trigger] t.lists[d][m] == s.lists[d][if d == c { m + 1 } else { m }] by {}
    assert forall|d: int, m: int, e: int, n: int|
        t.has(d, m) && t.has(e, n) && (d != e || m != n) implies class_block(
        d,
        #[trigger] t.lists[d][m],
    ).apart(class_block(e, #[trigger] t.lists[e][n])) by {
        let om = if d == c { m + 1 } else { m };
        let on = if e == c { n + 1 } else { n };
        assert(class_block(d, s.lists[d][om]).apart(class_block(e, s.lists[e][on])));
    }
    assert forall|d: int, m: int| t.has(d, m) implies class_block(
        d,
        #[trigger] t.lists[d][m],
    ).apart(block) by {
        let om = if d == c { m + 1 } else { m };
        assert(class_block(d, s.lists[d][om]).apart(class_block(c, s.lists[c][0])));
    }
    assert forall|q: Region| s.shares_no_free_byte(q) implies #[trigger] t.shares_no_free_byte(
        q,
    ) by {
        assert forall|d: int, m: int| t.has(d, m) implies class_block(
            d,
            #[trigger] t.lists[d][m],
        ).apart(q) by {
            let om = if d == c { m + 1 } else { m };
            assert(class_block(d, s.lists[d][om]).apart(q));
        }
    }
}

/// Putting a block in front of the list of its class leaves what is free well-formed, where
/// the block is aligned to its size, lies inside the heap and shared no byte with what was
/// free.
pub proof fn lemma_push(s: FixedState, heap: Region, c: int, addr: usize)
    requires
        s.ok(heap),
        0 <= c < CLASSES,
        is_aligned(addr as int, BLOCK_SIZES[c] as int),
        class_block(c, addr).within(heap),
        s.shares_no_free_byte(class_block(c, addr)),
    ensures
        s.push(c, addr).ok(heap),
        forall|q: Region|
            s.shares_no_free_byte(q) && q.apart(class_block(c, addr)) ==> #[trigger] s.push(
                c,
                addr,
            ).shares_no_free_byte(q),
{
    let t = s.push(c, addr);
    let block = class_block(c, addr);
    assert forall|d: int, m: int| t.has(d, m) implies (d == c && m == 0 && #[trigger] t.lists[d][m]
        == addr) || (s.has(d, if d == c { m - 1 } else { m }) && t.lists[d][m] == s.lists[d][if d
        == c { m - 1 } else { m }]) by {}
    assert forall|d: int, m: int| t.has(d, m) implies {
        let b = class_block(d, #[trigger] t.lists[d][m]);
        &&& is_aligned(b.start as int, BLOCK_SIZES[d] as int)
        &&& b.within(heap)
        &&& clear_of(t.free, b)
    } by {
        if !(d == c && m == 0) {
            let om = if d == c { m - 1 } else { m };
            assert(t.lists[d][m] == s.lists[d][om]);
        }
    }
    assert forall|d: int, m: int, e: int, n: int|
        t.has(d, m) && t.has(e, n) && (d != e || m != n) implies class_block(
        d,
        #[trigger] t.lists[d][m],
    ).apart(class_block(e, #[trigger] t.lists[e][n])) by {
        let om = if d == c { m - 1 } else { m };
        let on = if e == c { n - 1 } else { n };
        if d == c && m == 0 {
            assert(class_block(e, s.lists[e][on]).apart(block));
        } else if e == c && n == 0 {
            assert(class_block(d, s.lists[d][om]).apart(block));
        } else {
            assert(class_block(d, s.lists[d][om]).apart(class_block(e, s.lists[e][on])));
        }
    }
    assert forall|q: Region|
        s.shares_no_free_byte(q) && q.apart(block) implies #[trigger] t.shares_no_free_byte(q) by {
        assert forall|d: int, m: int| t.has(d, m) implies class_block(
            d,
            #[trigger] t.lists[d][m],
        ).apart(q) by {
            if !(d == c && m == 0) {
                let om = if d == c { m - 1 } else { m };
                assert(class_block(d, s.lists[d][om]).apart(q));
            }
        }
    }
}

/// A request to the fallback heap leaves what is free well-formed. The block it hands out
/// shares no byte with what is still free, and neither does anything that shared none before.
pub proof fn lemma_fallback_allocate(s: FixedState, heap: Region, layout: Layout)
    requires
        s.ok(heap),
    ensures
        with_free(s, allocate_spec(s.free, layout).0).ok(heap),
        forall|q: Region|
            s.shares_no_free_byte(q) ==> #[trigger] with_free(
                s,
                allocate_spec(s.free, layout).0,
            ).shares_no_free_byte(q),
        allocate_spec(s.free, layout).1 matches Some(addr) ==> {
            &&& with_free(s, allocate_spec(s.free, layout).0).shares_no_free_byte(
                block_of(addr, layout),
            )
            &&& forall|q: Region|
                s.shares_no_free_byte(q) ==> #[trigger] q.apart(block_of(addr, layout))
        },
{
    lemma_allocate_spec(s.free, heap, layout);
    let t = with_free(s, allocate_spec(s.free, layout).0);
    assert forall|c: int, k: int| t.has(c, k) implies clear_of(
        t.free,
        class_block(c, #[trigger] t.lists[c][k]),
    ) by {
        assert(clear_of(s.free, class_block(c, s.lists[c][k])));
    }
    if let Some(addr) = allocate_spec(s.free, layout).1 {
        let block = block_of(addr, layout);
        assert forall|c: int, k: int| t.has(c, k) implies class_block(
            c,
            #[trigger] t.lists[c][k],
        ).apart(block) by {
            assert(clear_of(s.free, class_block(c, s.lists[c][k])));
        }
    }
}

/// Giving a block back to the fallback heap leaves what is free well-formed, where the block
/// could hold a node, lay inside the heap and shared no byte with what was free.
pub proof fn lemma_fallback_deallocate(s: FixedState, heap: Region, addr: usize, layout: Layout)
    requires
        s.ok(heap),
        normalize(layout) is Some,
        region_ok(block_of(addr, layout), heap),
        s.shares_no_free_byte(block_of(addr, layout)),
    ensures
        with_free(s, deallocate_spec(s.free, addr, layout)).ok(heap),
        forall|q: Region|
            s.shares_no_free_byte(q) && q.apart(block_of(addr, layout)) ==> #[trigger] with_free(
                s,
                deallocate_spec(s.free, addr, layout),
            ).shares_no_free_byte(q),
{
    lemma_deallocate_spec(s.free, heap, addr, layout);
    let t = with_free(s, deallocate_spec(s.free, addr, layout));
    let block = block_of(addr, layout);
    assert forall|c: int, k: int| t.has(c, k) implies clear_of(
        t.free,
        class_block(c, #[trigger] t.lists[c][k]),
    ) by {
        let b = class_block(c, s.lists[c][k]);
        assert(clear_of(s.free, b));
        assert(b.apart(block));
    }
}

/// What a request does to what is free.
///
/// What is free stays well-formed. A block that is handed out lies inside the heap, holds at
/// least the bytes asked for, is aligned as the request asked and, where a class serves the
/// request, to the block size of the class. It shares no byte with what is still free, so
/// that it can be freed. Whatever shared no byte with what was free shares none with what is
/// free now, nor with the block.
pub proof fn lemma_allocate(s: FixedState, heap: Region, layout: Layout)
    requires
        s.ok(heap),
    ensures
        s.allocate(layout).0.ok(heap),
        forall|q: Region|
            s.shares_no_free_byte(q) ==> #[trigger] s.allocate(layout).0.shares_no_free_byte(q),
        s.allocate(layout).1 matches Some(addr) ==> {
            let block = block_for(addr, layout);
            &&& block.within(heap)
            &&& block.size >= layout.size
            &&& block.size >= WORD_SIZE
            &&& is_aligned(addr as int, layout.align as int)
            &&& is_aligned(addr as int, WORD_SIZE as int)
            &&& class_of(layout) matches Some(c) ==> is_aligned(
                addr as int,
                BLOCK_SIZES[c as int] as int,
            )
            &&& s.allocate(layout).0.shares_no_free_byte(block)
            &&& can_free(s.allocate(layout).0, heap, addr, layout)
            &&& forall|q: Region| s.shares_no_free_byte(q) ==> #[trigger] q.apart(block)
        },
{
    lemma_first_class(max(layout.size as int, layout.align as int), 0);
    if power_of_two(layout.align as int) {
        lemma_served(s, heap, layout);
    }
}

/// [`lemma_allocate`], for a request whose alignment is a power of two.
proof fn lemma_served(s: FixedState, heap: Region, layout: Layout)
    requires
        s.ok(heap),
        power_of_two(layout.align as int),
    ensures
        s.allocate(layout).0.ok(heap),
        forall|q: Region|
            s.shares_no_free_byte(q) ==> #[trigger] s.allocate(layout).0.shares_no_free_byte(q),
        s.allocate(layout).1 matches Some(addr) ==> {
            let block = block_for(addr, layout);
            &&& block.within(heap)
            &&& block.size >= layout.size
            &&& block.size >= WORD_SIZE
            &&& is_aligned(addr as int, layout.align as int)
            &&& is_aligned(addr as int, WORD_SIZE as int)
            &&& class_of(layout) matches Some(c) ==> is_aligned(
                addr as int,
                BLOCK_SIZES[c as int] as int,
            )
            &&& s.allocate(layout).0.shares_no_free_byte(block)
            &&& can_free(s.allocate(layout).0, heap, addr, layout)
            &&& forall|q: Region| s.shares_no_free_byte(q) ==> #[trigger] q.apart(block)
        },
{
    lemma_first_class(max(layout.size as int, layout.align as int), 0);
    match class_of(layout) {
        Some(c) => {
            let c = c as int;
            lemma_block_sizes(c);
            super::linked_list::lemma_power_of_two_multiple_of_smaller(
                layout.align as int,
                BLOCK_SIZES[c] as int,
            );
            if s.lists[c].len() > 0 {
                lemma_pop(s, heap, c);
                let block = class_block(c, s.lists[c][0]);
                assert forall|q: Region| s.shares_no_free_byte(q) implies #[trigger] q.apart(
                    block,
                ) by {
                    assert(s.has(c, 0));
                }
            } else {
                lemma_fallback_allocate(s, heap, class_layout(c));
                lemma_allocate_spec(s.free, heap, class_layout(c));
                if let Some(addr) = allocate_spec(s.free, class_layout(c)).1 {
                    let t = s.allocate(layout).0;
                    let wide = block_of(addr, class_layout(c));
                    let block = class_block(c, addr);
                    assert(block.within(wide));
                    assert(t.shares_no_free_byte(wide));
                    assert forall|d: int, m: int| t.has(d, m) implies class_block(
                        d,
                        #[trigger] t.lists[d][m],
                    ).apart(block) by {
                        assert(class_block(d, t.lists[d][m]).apart(wide));
                    }
                    assert forall|q: Region| s.shares_no_free_byte(q) implies #[trigger] q.apart(
                        block,
                    ) by {
                        assert(q.apart(wide));
                    }
                }
            }
        },
        None => {
            lemma_fallback_allocate(s, heap, layout);
            lemma_allocate_spec(s.free, heap, layout);
        },
    }
}

/// What [`first_class`] finds is a class whose blocks are large enough, and no class before it
/// is.
pub proof fn lemma_first_class(need: int, from: int)
    requires
        0 <= from,
    ensures
        match first_class(need, from) {
            Some(c) => {
                &&& from <= c < CLASSES
                &&& BLOCK_SIZES[c as int] >= need
                &&& forall|d: int| from <= d < c ==> BLOCK_SIZES[d] < need
            },
            None => forall|d: int| from <= d < CLASSES ==> BLOCK_SIZES[d] < need,
        },
    decreases CLASSES - from,
{
    if from < CLASSES && BLOCK_SIZES[from] < need {
        lemma_first_class(need, from + 1);
    }
}

/// The requirement on a block that is freed, as [`FixedSizeBlockAllocator::deallocate`] has
/// it: the block is one as a request for `layout` gets it, lies inside the heap and shares no
/// byte with anything that is free.
pub open spec fn can_free(s: FixedState, heap: Region, addr: usize, layout: Layout) -> bool {
    &&& power_of_two(layout.align as int)
    &&& s.shares_no_free_byte(block_for(addr, layout))
    &&& match class_of(layout) {
        Some(c) => is_aligned(addr as int, BLOCK_SIZES[c as int] as int) && class_block(
            c as int,
            addr,
        ).within(heap),
        None => normalize(layout) is Some && region_ok(block_of(addr, layout), heap),
    }
}

/// What freeing a block does to what is free: it stays well-formed, and whatever shared no
/// byte with what was free nor with the block shares none with what is free now.
pub proof fn lemma_deallocate(s: FixedState, heap: Region, addr: usize, layout: Layout)
    requires
        s.ok(heap),
        can_free(s, heap, addr, layout),
    ensures
        s.deallocate(addr, layout).ok(heap),
        forall|q: Region|
            s.shares_no_free_byte(q) && q.apart(block_for(addr, layout)) ==> #[trigger] s.deallocate(
                addr,
                layout,
            ).shares_no_free_byte(q),
{
    lemma_first_class(max(layout.size as int, layout.align as int), 0);
    match class_of(layout) {
        Some(c) => {
            lemma_push(s, heap, c as int, addr);
        },
        None => {
            lemma_fallback_deallocate(s, heap, addr, layout);
        },
    }
}

/// Whether `live` can be the blocks that are handed out and not freed yet, beside what is free:
/// every one of them lies inside the heap and shares no byte with anything that is free, and no
/// two of them share a byte.
pub open spec fn live_ok(s: FixedState, heap: Region, live: Set<Region>) -> bool {
    &&& forall|b: Region| #[trigger] live.contains(b) ==> b.within(heap) && s.shares_no_free_byte(b)
    &&& forall|b: Region, c: Region|
        #[trigger] live.contains(b) && #[trigger] live.contains(c) && b != c ==> b.apart(c)
}

/// A block that is handed out lies inside the heap and shares no byte with a block that is
/// live already; with it among them, the live blocks still are as [`live_ok`] says.
pub proof fn lemma_allocation_is_apart_from_live_blocks(
    s: FixedState,
    heap: Region,
    live: Set<Region>,
    layout: Layout,
)
    requires
        s.ok(heap),
        live_ok(s, heap, live),
    ensures
        s.allocate(layout).0.ok(heap),
        match s.allocate(layout).1 {
            Some(addr) => {
                let block = block_for(addr, layout);
                &&& block.within(heap)
                &&& forall|b: Region| #[trigger] live.contains(b) ==> b.apart(block)
                &&& live_ok(s.allocate(layout).0, heap, live.insert(block))
            },
            None => live_ok(s.allocate(layout).0, heap, live),
        },
{
    lemma_allocate(s, heap, layout);
    let t = s.allocate(layout).0;
    assert forall|b: Region| #[trigger] live.contains(b) implies t.shares_no_free_byte(b) by {
        assert(s.shares_no_free_byte(b));
    }
    if let Some(addr) = s.allocate(layout).1 {
        let block = block_for(addr, layout);
        assert forall|b: Region| #[trigger] live.contains(b) implies b.apart(block) by {
            assert(s.shares_no_free_byte(b));
        }
    }
}

/// A live block that is aligned as its request asked meets what
/// [`FixedSizeBlockAllocator::deallocate`] asks of the block it is given, and once it is freed
/// the other live blocks still are as [`live_ok`] says.
pub proof fn lemma_deallocation_keeps_live_blocks_apart(
    s: FixedState,
    heap: Region,
    live: Set<Region>,
    addr: usize,
    layout: Layout,
)
    requires
        s.ok(heap),
        live_ok(s, heap, live),
        live.contains(block_for(addr, layout)),
        power_of_two(layout.align as int),
        match class_of(layout) {
            Some(c) => is_aligned(addr as int, BLOCK_SIZES[c as int] as int),
            None => normalize(layout) is Some && addr % NODE_ALIGN == 0,
        },
    ensures
        can_free(s, heap, addr, layout),
        s.deallocate(addr, layout).ok(heap),
        live_ok(s.deallocate(addr, layout), heap, live.remove(block_for(addr, layout))),
{
    lemma_first_class(max(layout.size as int, layout.align as int), 0);
    if class_of(layout) is None {
        lemma_normalize(layout);
    }
    lemma_deallocate(s, heap, addr, layout);
    let block = block_for(addr, layout);
    assert forall|b: Region| #[trigger]
        live.remove(block).contains(b) implies s.deallocate(addr, layout).shares_no_free_byte(
        b,
    ) by {
        assert(live.contains(b));
        assert(b.apart(block));
    }
}

/// A block that has just been freed is the first to be handed out again: a request for the
/// same layout, made next, gets the block back and leaves what is free as it was before the
/// block was freed.
pub proof fn lemma_freed_block_is_reused_first(
    s: FixedState,
    heap: Region,
    addr: usize,
    layout: Layout,
)
    requires
        s.ok(heap),
        can_free(s, heap, addr, layout),
        class_of(layout) is None ==> is_aligned(
            addr as int,
            normalize(layout).unwrap().align as int,
        ),
    ensures
        s.deallocate(addr, layout).allocate(layout) == (s, Some(addr)),
{
    lemma_first_class(max(layout.size as int, layout.align as int), 0);
    match class_of(layout) {
        Some(c) => {
            let c = c as int;
            let pushed = s.push(c, addr);
            assert(pushed.lists[c].drop_first() =~= s.lists[c]);
            assert(pushed.pop(c).lists =~= s.lists);
        },
        None => {
            super::linked_list::lemma_freed_block_is_reused_first(s.free, addr, layout);
        },
    }
}

/// What a request can take from the room of the fallback heap at most: the cost of a block of
/// its class, or its own cost where no class serves it.
pub open spec fn cost(layout: Layout) -> int {
    match class_of(layout) {
        Some(c) => super::linked_list::cost(class_layout(c as int)),
        None => super::linked_list::cost(layout),
    }
}

/// Whether `layout` is a request that can be served at all: its alignment is a power of two,
/// and it is served by a class or has a normalized form.
pub open spec fn servable(layout: Layout) -> bool {
    &&& power_of_two(layout.align as int)
    &&& class_of(layout) is Some || normalize(layout) is Some
}

/// A request that can be served at all is served whenever some chunk of the fallback heap has
/// room for its cost.
pub proof fn lemma_room_serves(s: FixedState, heap: Region, layout: Layout)
    requires
        s.ok(heap),
        servable(layout),
        has_room(s.free, cost(layout)),
    ensures
        s.allocate(layout).1 is Some,
{
    lemma_first_class(max(layout.size as int, layout.align as int), 0);
    match class_of(layout) {
        Some(c) => {
            if s.lists[c as int].len() == 0 {
                lemma_class_layout_is_valid(c as int);
                lemma_valid_layout_has_normal_form(class_layout(c as int));
                super::linked_list::lemma_room_serves(s.free, heap, class_layout(c as int));
            }
        },
        None => {
            super::linked_list::lemma_room_serves(s.free, heap, layout);
        },
    }
}

/// A request takes no more from the room of the fallback heap than its cost, and a block that
/// is freed takes nothing.
pub proof fn lemma_room_left(s: FixedState, heap: Region, layout: Layout, bytes: int)
    requires
        s.ok(heap),
        has_room(s.free, bytes),
        bytes - cost(layout) >= NODE_SIZE,
    ensures
        cost(layout) >= 0,
        has_room(s.allocate(layout).0.free, bytes - cost(layout)),
        forall|addr: usize| has_room(#[trigger] s.deallocate(addr, layout).free, bytes),
{
    let j = choose|j: int| 0 <= j < s.free.len() && (#[trigger] s.free[j]).size >= bytes;
    match class_of(layout) {
        Some(c) => {
            super::linked_list::lemma_room_left(s.free, heap, class_layout(c as int), bytes);
        },
        None => {
            super::linked_list::lemma_room_left(s.free, heap, layout, bytes);
        },
    }
    assert(s.free[j].size >= bytes - cost(layout));
}

/// One call of the allocator: a request, or the freeing of a block.
pub enum HeapOp {
    /// A request for a block.
    Allocate(Layout),
    /// The freeing of the block at an address, with the layout of its request.
    Deallocate(usize, Layout),
}

/// What is free after the first `k` of the calls `ops` have been made, one after the other.
pub open spec fn after(s: FixedState, ops: Seq<HeapOp>, k: nat) -> FixedState
    decreases k,
{
    if k == 0 {
        s
    } else {
        let before = after(s, ops, (k - 1) as nat);
        match ops[k - 1] {
            HeapOp::Allocate(layout) => before.allocate(layout).0,
            HeapOp::Deallocate(addr, layout) => before.deallocate(addr, layout),
        }
    }
}

/// The sum of the costs of the requests among the first `k` of the calls `ops`.
pub open spec fn spent(ops: Seq<HeapOp>, k: nat) -> int
    decreases k,
{
    if k == 0 {
        0
    } else {
        spent(ops, (k - 1) as nat) + match ops[k - 1] {
            HeapOp::Allocate(layout) => cost(layout),
            HeapOp::Deallocate(_, _) => 0,
        }
    }
}

/// Whether every block that the calls `ops` free may be freed when its turn comes.
pub open spec fn frees_are_valid(s: FixedState, heap: Region, ops: Seq<HeapOp>) -> bool {
    forall|k: nat|
        k < ops.len() ==> (#[trigger] ops[k as int] matches HeapOp::Deallocate(addr, layout)
            ==> can_free(after(s, ops, k), heap, addr, layout))
}

/// While the calls are made, what is free stays well-formed and the room of the fallback heap
/// shrinks by no more than what the requests have cost.
proof fn lemma_run_keeps_room(s: FixedState, heap: Region, ops: Seq<HeapOp>, bytes: int, k: nat)
    requires
        s.ok(heap),
        frees_are_valid(s, heap, ops),
        has_room(s.free, bytes),
        k <= ops.len(),
        spent(ops, k) + NODE_SIZE <= bytes,
    ensures
        after(s, ops, k).ok(heap),
        has_room(after(s, ops, k).free, bytes - spent(ops, k)),
        forall|j: nat| j <= k ==> 0 <= #[trigger] spent(ops, j) <= spent(ops, k),
    decreases k,
{
    if k > 0 {
        let before = after(s, ops, (k - 1) as nat);
        let left = bytes - spent(ops, (k - 1) as nat);
        match ops[k - 1] {
            HeapOp::Allocate(layout) => {
                lemma_cost_is_not_negative(layout);
                lemma_run_keeps_room(s, heap, ops, bytes, (k - 1) as nat);
                lemma_allocate(before, heap, layout);
                lemma_room_left(before, heap, layout, left);
            },
            HeapOp::Deallocate(addr, layout) => {
                lemma_run_keeps_room(s, heap, ops, bytes, (k - 1) as nat);
                assert(can_free(before, heap, addr, layout));
                lemma_deallocate(before, heap, addr, layout);
                let j = choose|j: int|
                    0 <= j < before.free.len() && (#[trigger] before.free[j]).size >= left;
                match class_of(layout) {
                    Some(c) => {},
                    None => {
                        assert(before.deallocate(addr, layout).free[j + 1] == before.free[j]);
                    },
                }
            },
        }
        assert forall|j: nat| j <= k implies 0 <= #[trigger] spent(ops, j) <= spent(ops, k) by {
            if j < k {
                assert(spent(ops, j) <= spent(ops, (k - 1) as nat));
            }
        }
    }
}

/// No request costs less than nothing.
proof fn lemma_cost_is_not_negative(layout: Layout)
    ensures
        cost(layout) >= 0,
{
}

/// A valid request has a normalized form wherever its size, raised to that of a node, leaves
/// room for its alignment, raised to that of a node.
proof fn lemma_valid_layout_has_normal_form(layout: Layout)
    requires
        layout.valid(),
        layout.size <= 2048,
        layout.align <= 2048,
    ensures
        normalize(layout) is Some,
{
    super::lemma_power_of_two_is_positive(layout.align as int);
    let align = max(layout.align as int, NODE_ALIGN as int);
    super::lemma_round_up_is_least_multiple(layout.size as int, align);
}

/// A run of calls never runs out of memory while the requests fit the room that the fallback
/// heap had at its start: where some chunk had `bytes` bytes then, every request that can be
/// served at all is served, as long as the cost of the requests up to and with it, and a
/// node besides, stay within `bytes`. The blocks that are freed in between may be any that
/// may be freed.
pub proof fn lemma_run_within_budget_is_served(
    s: FixedState,
    heap: Region,
    ops: Seq<HeapOp>,
    bytes: int,
    k: nat,
)
    requires
        s.ok(heap),
        frees_are_valid(s, heap, ops),
        has_room(s.free, bytes),
        k < ops.len(),
        ops[k as int] is Allocate,
        servable(ops[k as int]->Allocate_0),
        spent(ops, k + 1) + NODE_SIZE <= bytes,
    ensures
        after(s, ops, k).allocate(ops[k as int]->Allocate_0).1 is Some,
{
    let layout = ops[k as int]->Allocate_0;
    lemma_cost_is_not_negative(layout);
    lemma_run_keeps_room(s, heap, ops, bytes, k);
    let before = after(s, ops, k);
    let left = bytes - spent(ops, k);
    let j = choose|j: int| 0 <= j < before.free.len() && (#[trigger] before.free[j]).size >= left;
    assert(before.free[j].size >= cost(layout));
    lemma_room_serves(before, heap, layout);
}

/// A free block of a class is handed out only to a request that its class serves, and only
/// as the first block of its list: a block that shares a byte with it is that very block.
pub proof fn lemma_free_block_stays_in_class(
    s: FixedState,
    heap: Region,
    layout: Layout,
    c: int,
    k: int,
)
    requires
        s.ok(heap),
        s.has(c, k),
        s.allocate(layout).1 is Some,
        !block_for(s.allocate(layout).1.unwrap(), layout).apart(class_block(c, s.lists[c][k])),
    ensures
        class_of(layout) == Some(c as usize),
        k == 0,
        s.allocate(layout).1 == Some(s.lists[c][0]),
{
    lemma_allocate(s, heap, layout);
    let addr = s.allocate(layout).1.unwrap();
    let mine = class_block(c, s.lists[c][k]);
    lemma_first_class(max(layout.size as int, layout.align as int), 0);
    lemma_block_sizes(c);
    match class_of(layout) {
        Some(d) => {
            let d = d as int;
            lemma_block_sizes(d);
            if s.lists[d].len() > 0 {
                assert(s.has(d, 0));
                if d != c || k != 0 {
                    assert(class_block(c, s.lists[c][k]).apart(class_block(d, s.lists[d][0])));
                }
            } else {
                lemma_allocate_spec(s.free, heap, class_layout(d));
                lemma_normalize(class_layout(d));
                let wide = block_of(addr, class_layout(d));
                let i = choose|i: int| 0 <= i < s.free.len() && wide.within(#[trigger] s.free[i]);
                assert(clear_of(s.free, mine));
                assert(s.free[i].apart(mine));
            }
        },
        None => {
            lemma_allocate_spec(s.free, heap, layout);
            let wide = block_of(addr, layout);
            let i = choose|i: int| 0 <= i < s.free.len() && wide.within(#[trigger] s.free[i]);
            assert(clear_of(s.free, mine));
            assert(s.free[i].apart(mine));
        },
    }
}

/// A fixed-size block allocator, maintains multiple node lists of same sized memory chunks.
///
/// A free block holds, in its first word, the link to the next free block of its class. The
/// blocks are carved out of a fallback heap, which also serves the requests that are too
/// large for any class, and never go back to it.
pub struct FixedSizeBlockAllocator<M: Memory> {
    /// for each class, the address of its first free block
    list_heads: [Option<usize>; 9],
    /// the heap that the blocks are carved out of
    fallback_allocator: LinkedListAllocator<M>,
    /// for each class, the addresses of its free blocks, in the order of the list
    lists: Ghost<Seq<Seq<usize>>>,
}

impl<M: Memory> View for FixedSizeBlockAllocator<M> {
    type V = FixedState;

    closed spec fn view(&self) -> FixedState {
        FixedState { free: self.fallback_allocator.free_list(), lists: self.lists@ }
    }
}

impl<M: Memory> FixedSizeBlockAllocator<M> {
    /// The heap region that the allocator was given.
    pub closed spec fn heap(&self) -> Region {
        self.fallback_allocator.heap()
    }

    /// The word that the heap holds at `addr`.
    pub closed spec fn word(&self, addr: usize) -> usize {
        self.fallback_allocator.word(addr)
    }

    /// The table of list heads: for each class, the link to its first free block.
    pub closed spec fn list_heads(&self) -> Seq<Option<usize>> {
        self.list_heads@
    }

    /// The fallback heap.
    pub closed spec fn fallback(&self) -> LinkedListAllocator<M> {
        self.fallback_allocator
    }

    /// Whether `addr` is the address of a whole word of the heap.
    pub open spec fn holds(&self, addr: usize) -> bool {
        &&& addr % WORD_SIZE == 0
        &&& word_at(addr).within(self.heap())
    }

    /// Whether free block `k` of class `c` holds the link to the next free block of its class.
    spec fn block_stored(&self, c: int, k: int) -> bool {
        self.fallback_allocator.word(self.lists@[c][k]) == encode_link(
            block_at(self.lists@[c], k + 1),
        )
    }

    /// The lists of free blocks are what the memory of the heap holds: every head links to the
    /// first free block of its class and every free block to the next one, the fallback heap
    /// is well-formed, and what is free is as [`FixedState::ok`] says.
    pub closed spec fn wf(&self) -> bool {
        &&& self.fallback_allocator.wf()
        &&& self@.ok(self.heap())
        &&& forall|c: int|
            0 <= c < CLASSES ==> #[trigger] self.list_heads@[c] == block_at(self.lists@[c], 0)
        &&& forall|c: int, k: int| self@.has(c, k) ==> #[trigger] self.block_stored(c, k)
    }

    /// What a well-formed allocator holds free is as [`FixedState::ok`] says.
    pub proof fn lemma_ok(&self)
        requires
            self.wf(),
        ensures
            self@.ok(self.heap()),
            self.heap().start % WORD_SIZE == 0,
    {
        self.fallback_allocator.lemma_free_list_ok();
    }

    /// The table has one head for each class, and each head links to the first free block of
    /// its class, or to nothing where the class has none. The fallback heap is a well-formed
    /// free-list allocator over the same heap, and its free list is the one that the view
    /// shows.
    pub proof fn lemma_heads_link_to_first_blocks(&self)
        requires
            self.wf(),
        ensures
            self.list_heads().len() == CLASSES,
            forall|c: int|
                0 <= c < CLASSES ==> #[trigger] self.list_heads()[c] == block_at(
                    self@.lists[c],
                    0,
                ),
            self.fallback().wf(),
            self.fallback().heap() == self.heap(),
            self.fallback().free_list() == self@.free,
    {
        assert forall|c: int| 0 <= c < CLASSES implies #[trigger] self.list_heads()[c]
            == block_at(self@.lists[c], 0) by {
            assert(self.list_heads@[c] == block_at(self.lists@[c], 0));
        }
    }

    /// Every free block holds, in its first word, the link to the block that follows it in the
    /// list of its class.
    pub proof fn lemma_blocks_are_linked(&self)
        requires
            self.wf(),
        ensures
            forall|c: int, k: int|
                self@.has(c, k) ==> self.word(#[trigger] self@.lists[c][k]) == encode_link(
                    block_at(self@.lists[c], k + 1),
                ),
    {
        assert forall|c: int, k: int| self@.has(c, k) implies self.word(
            #[trigger] self@.lists[c][k],
        ) == encode_link(block_at(self@.lists[c], k + 1)) by {
            assert(self.block_stored(c, k));
        }
    }

    /// Construct a new empty fixed-size block allocator.
    pub fn new() -> (r: Self)
        ensures
            r.wf(),
            r.heap() == (Region { start: 0, size: 0 }),
            r@.free == Seq::<Region>::empty(),
            r@.lists == Seq::new(CLASSES as nat, |c: int| Seq::<usize>::empty()),
    {
        FixedSizeBlockAllocator {
            list_heads: [None; 9],
            fallback_allocator: LinkedListAllocator::new(),
            lists: Ghost(Seq::new(CLASSES as nat, |c: int| Seq::<usize>::empty())),
        }
    }

    /// Initializes the allocator with the given heap bounds: the whole heap goes to the
    /// fallback heap, and the lists of free blocks stay empty until blocks are freed.
    ///
    /// The caller hands over a range that nothing else uses, and does so once.
    pub fn init(&mut self, heap_start: usize, heap_size: usize)
        requires
            old(self).wf(),
            old(self).heap().size == 0,
            heap_start % NODE_ALIGN == 0,
            heap_size >= super::linked_list::NODE_SIZE,
            heap_start + heap_size <= usize::MAX,
        ensures
            final(self).wf(),
            final(self).heap() == (Region { start: heap_start, size: heap_size }),
            final(self)@.free == seq![Region { start: heap_start, size: heap_size }],
            final(self)@.lists == old(self)@.lists,
            forall|c: int| 0 <= c < CLASSES ==> #[trigger] final(self)@.lists[c].len() == 0,
    {
        proof {
            assert forall|c: int| 0 <= c < CLASSES implies #[trigger] self.lists@[c].len()
                == 0 by {
                if self.lists@[c].len() > 0 {
                    lemma_block_sizes(c);
                    assert(self@.has(c, 0));
                    assert(class_block(c, self@.lists[c][0]).within(self.heap()));
                }
            }
        }
        self.fallback_allocator.init(heap_start, heap_size);
    }

    /// Asks the fallback heap for a block for `layout`. The lists of free blocks stay as they
    /// are.
    pub fn fallback_alloc(&mut self, layout: Layout) -> (r: Option<usize>)
        requires
            old(self).wf(),
        ensures
            final(self).wf(),
            final(self).heap() == old(self).heap(),
            final(self)@ == with_free(old(self)@, allocate_spec(old(self)@.free, layout).0),
            r == allocate_spec(old(self)@.free, layout).1,
            forall|a: usize|
                old(self).holds(a) && clear_of(old(self)@.free, word_at(a))
                    ==> #[trigger] final(self).word(a) == old(self).word(a),
    {
        let ghost before = *self;
        let r = self.fallback_allocator.allocate(layout);
        proof {
            lemma_fallback_allocate(before@, before.heap(), layout);
            assert forall|c: int, k: int| self@.has(c, k) implies #[trigger] self.block_stored(
                c,
                k,
            ) by {
                before.lemma_block_word(c, k);
                assert(before.block_stored(c, k));
            }
        }
        r
    }

    /// The first word of a free block is a word of the heap that lies in no free chunk of the
    /// fallback heap, and is the first word of no other free block.
    proof fn lemma_block_word(&self, c: int, k: int)
        requires
            self.wf(),
            self@.has(c, k),
        ensures
            self.holds(self.lists@[c][k]),
            self.fallback_allocator.holds(self.lists@[c][k]),
            clear_of(self@.free, word_at(self.lists@[c][k])),
            self.lists@[c][k] != NO_LINK,
            forall|d: int, m: int|
                self@.has(d, m) && (d != c || m != k) ==> #[trigger] self.lists@[d][m]
                    != self.lists@[c][k],
    {
        lemma_block_sizes(c);
        let block = class_block(c, self@.lists[c][k]);
        assert(is_aligned(block.start as int, BLOCK_SIZES[c] as int));
        assert(is_aligned(block.start as int, WORD_SIZE as int));
        assert(block.within(self.heap()));
        assert(word_at(block.start).within(block));
        assert(clear_of(self@.free, block));
        assert forall|d: int, m: int|
            self@.has(d, m) && (d != c || m != k) implies #[trigger] self.lists@[d][m]
            != self.lists@[c][k] by {
            lemma_block_sizes(d);
            assert(class_block(d, self@.lists[d][m]).apart(class_block(c, self@.lists[c][k])));
        }
    }

    /// Serves `layout`: with the first free block of the class that serves the request, with a
    /// new block of that class from the fallback heap where the class has no free block, or
    /// straight from the fallback heap where no class serves the request.
    ///
    /// Returns `None` where the fallback heap cannot serve what is asked of it. Only words of
    /// free chunks of the fallback heap are written.
    pub fn allocate(&mut self, layout: Layout) -> (r: Option<usize>)
        requires
            old(self).wf(),
        ensures
            final(self).wf(),
            final(self).heap() == old(self).heap(),
            (final(self)@, r) == old(self)@.allocate(layout),
            forall|a: usize|
                old(self).holds(a) && clear_of(old(self)@.free, word_at(a))
                    ==> #[trigger] final(self).word(a) == old(self).word(a),
            r matches Some(addr) ==> {
                let block = block_for(addr, layout);
                &&& block.within(old(self).heap())
                &&& block.size >= layout.size
                &&& block.size >= WORD_SIZE
                &&& is_aligned(addr as int, layout.align as int)
                &&& is_aligned(addr as int, WORD_SIZE as int)
                &&& class_of(layout) matches Some(c) ==> is_aligned(
                    addr as int,
                    BLOCK_SIZES[c as int] as int,
                )
                &&& final(self)@.shares_no_free_byte(block)
                &&& can_free(final(self)@, old(self).heap(), addr, layout)
            },
    {
        let ghost before = *self;
        proof {
            lemma_allocate(before@, before.heap(), layout);
        }
        if !layout.align.is_power_of_two() {
            return None;
        }
        match list_index(&layout) {
            Some(index) => match self.list_heads[index] {
                Some(node) => {
                    proof {
                        before.lemma_block_word(index as int, 0);
                        assert(before.block_stored(index as int, 0));
                        if before.lists@[index as int].len() > 1 {
                            before.lemma_block_word(index as int, 1);
                        }
                    }
                    let next = word_link(self.fallback_allocator.read(node));
                    self.list_heads[index] = next;
                    self.lists = Ghost(before@.pop(index as int).lists);
                    proof {
                        let c = index as int;
                        assert forall|d: int, m: int| self@.has(d, m) implies before@.has(
                            d,
                            if d == c { m + 1 } else { m },
                        ) && #[trigger] self.block_stored(d, m) by {
                            let om = if d == c { m + 1 } else { m };
                            assert(before.block_stored(d, om));
                        }
                    }
                    Some(node)
                },
                None => {
                    // the required node list is empty, no free block has the required size
                    let block_size = BLOCK_SIZES[index];
                    proof {
                        lemma_block_sizes(index as int);
                        lemma_class_layout_is_valid(index as int);
                    }
                    // works because every block size is a power of 2
                    let layout = Layout::from_size_align(block_size, block_size).unwrap();
                    // the block is instead allocated from the fallback allocator
                    self.fallback_alloc(layout)
                },
            },
            None => {
                // the required layout doesn't fit in any predefined block size
                self.fallback_alloc(layout)
            },
        }
    }

    /// Takes back the block for `layout` at `addr`: it joins the front of the list of the
    /// class that serves the request, or goes back to the fallback heap where no class does.
    ///
    /// The caller names a block exactly as it was handed out, and one that has not been freed
    /// since: see [`can_free`]. A block of a class gets the link to the next free block
    /// written to its first word, a block of the fallback heap a node to its first two words;
    /// no other word of the heap changes.
    pub fn deallocate(&mut self, addr: usize, layout: Layout)
        requires
            old(self).wf(),
            can_free(old(self)@, old(self).heap(), addr, layout),
        ensures
            final(self).wf(),
            final(self).heap() == old(self).heap(),
            final(self)@ == old(self)@.deallocate(addr, layout),
            forall|a: usize|
                old(self).holds(a) && a != addr && a != addr + WORD_SIZE
                    ==> #[trigger] final(self).word(a) == old(self).word(a),
    {
        let ghost before = *self;
        proof {
            lemma_deallocate(before@, before.heap(), addr, layout);
        }
        match list_index(&layout) {
            Some(index) => {
                let ghost c = index as int;
                proof {
                    lemma_block_sizes(c);
                    assert(word_at(addr).within(class_block(c, addr)));
                    assert(is_aligned(addr as int, WORD_SIZE as int));
                }
                let head = self.list_heads[index];
                self.fallback_allocator.write(addr, link_word(head));
                self.list_heads[index] = Some(addr);
                self.lists = Ghost(before@.push(c, addr).lists);
                proof {
                    assert forall|d: int, m: int| self@.has(d, m) implies #[trigger] self.block_stored(
                        d,
                        m,
                    ) by {
                        if !(d == c && m == 0) {
                            let om = if d == c { m - 1 } else { m };
                            assert(before@.has(d, om));
                            assert(before.block_stored(d, om));
                            assert(class_block(d, before@.lists[d][om]).apart(
                                class_block(c, addr),
                            ));
                            before.lemma_block_word(d, om);
                            lemma_block_sizes(d);
                        }
                    }
                }
            },
            None => {
                // deallocation of a massive block that doesn't belong to any node list
                self.fallback_allocator.deallocate(addr, layout);
                proof {
                    lemma_normalize(layout);
                    assert forall|d: int, m: int| self@.has(d, m) implies #[trigger] self.block_stored(
                        d,
                        m,
                    ) by {
                        assert(before.block_stored(d, m));
                        before.lemma_block_word(d, m);
                        lemma_block_sizes(d);
                        assert(class_block(d, before@.lists[d][m]).apart(block_of(addr, layout)));
                    }
                }
            },
        }
    }

    /// Reads the word of the heap at `addr`.
    pub fn read(&self, addr: usize) -> (r: usize)
        requires
            self.wf(),
            self.holds(addr),
        ensures
            r == self.word(addr),
    {
        self.fallback_allocator.read(addr)
    }

    /// Writes `value` to the word of the heap at `addr`, which must lie outside everything
    /// that is free. No other word changes, and neither does what is free.
    pub fn write(&mut self, addr: usize, value: usize)
        requires
            old(self).wf(),
            old(self).holds(addr),
            old(self)@.shares_no_free_byte(word_at(addr)),
        ensures
            final(self).wf(),
            final(self).heap() == old(self).heap(),
            final(self)@ == old(self)@,
            final(self).word(addr) == value,
            forall|a: usize|
                old(self).holds(a) && a != addr ==> #[trigger] final(self).word(a) == old(self).word(
                    a,
                ),
    {
        let ghost before = *self;
        self.fallback_allocator.write(addr, value);
        proof {
            assert forall|c: int, k: int| self@.has(c, k) implies #[trigger] self.block_stored(
                c,
                k,
            ) by {
                assert(before.block_stored(c, k));
                before.lemma_block_word(c, k);
                lemma_block_sizes(c);
                assert(class_block(c, before@.lists[c][k]).apart(word_at(addr)));
            }
        }
    }
}

/// The request that a block of a class is asked of the fallback heap with is a valid one.
proof fn lemma_class_layout_is_valid(c: int)
    requires
        0 <= c < CLASSES,
    ensures
        class_layout(c).valid(),
{
    lemma_block_sizes(c);
}

} // verus!
