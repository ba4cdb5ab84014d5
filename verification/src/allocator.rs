use vstd::arithmetic::power2::pow2;
use vstd::prelude::*;

/// The memory of a heap region, as the allocators read and write it.
pub mod arena;

/// The mapping of the heap region, step by step.
pub mod bootstrap;

/// A bump allocator, which gives memory back only once every allocation has been freed.
pub mod bump;

/// A fixed-size block allocator, which keeps one list of free blocks per block size.
pub mod fixed_size_block;

/// A free-list allocator, which keeps its bookkeeping inside the free memory itself.
pub mod linked_list;

verus! {

/// A request for a block of memory: `size` bytes at an address that is a multiple of `align`.
///
/// Any two numbers form a request. One whose alignment is not a power of two is never served:
/// every allocator answers it with `None`.
#[derive(Clone, Copy, Debug, PartialEq, Eq, Structural)]
pub struct Layout {
    /// The number of bytes asked for.
    pub size: usize,
    /// The alignment the block's address must have.
    pub align: usize,
}

/// The error of a size and an alignment that form no valid [`Layout`].
#[derive(Clone, Copy, Debug, PartialEq, Eq, Structural)]
pub struct LayoutError;

impl Layout {
    /// A valid request has a power of two as its alignment, and its size, rounded up to that
    /// alignment, does not exceed `isize::MAX`.
    pub open spec fn valid(self) -> bool {
        &&& power_of_two(self.align as int)
        &&& self.size <= isize::MAX - (self.align - 1)
    }

    /// Builds a request from `size` and `align`, or fails where the two form no valid one.
    pub fn from_size_align(size: usize, align: usize) -> (r: Result<Layout, LayoutError>)
        ensures
            r == if (Layout { size, align }).valid() {
                Ok::<Layout, LayoutError>(Layout { size, align })
            } else {
                Err::<Layout, LayoutError>(LayoutError)
            },
    {
        if !align.is_power_of_two() {
            return Err(LayoutError);
        }
        proof {
            lemma_power_of_two_is_positive(align as int);
            lemma_power_of_two_bound(align);
        }
        let limit: usize = (isize::MAX as usize) - (align - 1);
        if size > limit {
            Err(LayoutError)
        } else {
            Ok(Layout { size, align })
        }
    }

    /// The number of bytes asked for.
    pub fn size(&self) -> (r: usize)
        ensures
            r == self.size,
    {
        self.size
    }

    /// The alignment asked for.
    pub fn align(&self) -> (r: usize)
        ensures
            r == self.align,
    {
        self.align
    }
}

/// A dummy allocator, returns error to all allocation request.
pub struct Dummy;

impl Dummy {
    /// Serves no request: the answer is always `None`.
    pub fn allocate(&self, layout: Layout) -> (r: Option<usize>)
        ensures
            r is None,
    {
        let _ = layout;
        None
    }
}

/// A power of two is at least one.
pub proof fn lemma_power_of_two_is_positive(n: int)
    requires
        power_of_two(n),
    ensures
        n >= 1,
{
    let k = choose|k: nat| n == pow2(k);
    vstd::arithmetic::power2::lemma_pow2_pos(k);
}

/// Start of the kernel heap region in the virtual address space.
pub const HEAP_START: u64 = 0x4444_4444_0000;

/// Size of the kernel heap region in the virtual address space.
pub const HEAP_SIZE: usize = 1024 * 1024;

/// Whether `n` is two raised to some natural power.
pub open spec fn power_of_two(n: int) -> bool {
    exists|k: nat| n == pow2(k)
}

/// Whether `addr` is a multiple of the positive `align`.
pub open spec fn is_aligned(addr: int, align: int) -> bool {
    addr % align == 0
}

/// `addr` rounded up to the next multiple of `align`, for a positive `align`.
pub open spec fn round_up(addr: int, align: int) -> int {
    if addr % align == 0 {
        addr
    } else {
        addr - addr % align + align
    }
}

/// What [`align_up`] returns: the rounded address, where the alignment is a power of two and the
/// rounded address still fits the address width.
pub open spec fn align_up_spec(addr: usize, align: usize) -> Option<usize> {
    if power_of_two(align as int) && round_up(addr as int, align as int) <= usize::MAX {
        Some(round_up(addr as int, align as int) as usize)
    } else {
        None
    }
}

/// `usize::is_power_of_two` of the standard library, which returns `true` if and only if the
/// number is `2^k` for some `k`.
pub assume_specification[ usize::is_power_of_two ](n: usize) -> (r: bool)
    ensures
        r == power_of_two(n as int),
;

/// `round_up(addr, align)` is the least multiple of `align` that is not below `addr`.
pub proof fn lemma_round_up_is_least_multiple(addr: int, align: int)
    requires
        align > 0,
    ensures
        round_up(addr, align) >= addr,
        round_up(addr, align) < addr + align,
        is_aligned(round_up(addr, align), align),
        forall|m: int| m >= addr && #[trigger] is_aligned(m, align) ==> round_up(addr, align) <= m,
{
    let r = round_up(addr, align);
    vstd::arithmetic::div_mod::lemma_fundamental_div_mod(addr, align);
    vstd::arithmetic::div_mod::lemma_mod_bound(addr, align);
    assert(r % align == 0) by {
        if addr % align != 0 {
            let q = addr / align;
            assert(r == align * (q + 1)) by (nonlinear_arith)
                requires
                    r == addr - addr % align + align,
                    addr == align * q + addr % align,
            ;
            vstd::arithmetic::div_mod::lemma_mod_multiples_basic(q + 1, align);
            assert(align * (q + 1) == (q + 1) * align) by (nonlinear_arith);
        }
    }
    assert forall|m: int| m >= addr && #[trigger] is_aligned(m, align) implies r <= m by {
        if r > m {
            // both are multiples of `align` within one step of each other
            vstd::arithmetic::div_mod::lemma_fundamental_div_mod(m, align);
            vstd::arithmetic::div_mod::lemma_fundamental_div_mod(r, align);
            let qm = m / align;
            let qr = r / align;
            assert(qm < qr) by (nonlinear_arith)
                requires
                    align > 0,
                    align * qm < align * qr,
            ;
            assert(align * qr - align * qm >= align) by (nonlinear_arith)
                requires
                    align > 0,
                    qm + 1 <= qr,
            ;
        }
    }
}

/// A power of two that fits the address width is `pow2(k)` for some `k` below that width.
proof fn lemma_power_of_two_exponent(n: usize) -> (k: nat)
    requires
        power_of_two(n as int),
    ensures
        n == pow2(k),
        k < usize::BITS,
{
    let k = choose|k: nat| n as int == pow2(k);
    if k >= usize::BITS {
        vstd::bits::lemma_usize_pow2_no_overflow(0);
        vstd::arithmetic::power2::lemma2_to64();
        vstd::arithmetic::power2::lemma2_to64_rest();
        if k > usize::BITS {
            vstd::arithmetic::power2::lemma_pow2_strictly_increases(usize::BITS as nat, k);
        }
        assert(pow2(usize::BITS as nat) > usize::MAX);
    }
    k
}

/// The largest power of two that fits the address width is `isize::MAX + 1`.
pub proof fn lemma_power_of_two_bound(n: usize)
    requires
        power_of_two(n as int),
    ensures
        1 <= n <= isize::MAX + 1,
{
    let k = lemma_power_of_two_exponent(n);
    vstd::arithmetic::power2::lemma_pow2_pos(k);
    vstd::arithmetic::power2::lemma2_to64();
    vstd::arithmetic::power2::lemma2_to64_rest();
    let top = (usize::BITS - 1) as nat;
    if k < top {
        vstd::arithmetic::power2::lemma_pow2_strictly_increases(k, top);
    }
    assert(pow2(top) == isize::MAX + 1);
}

/// For a power of two `align`, masking with `align - 1` takes the remainder and masking with its
/// complement rounds down.
proof fn lemma_mask_is_remainder(addr: usize, align: usize)
    requires
        power_of_two(align as int),
    ensures
        align > 0,
        addr & ((align - 1) as usize) == addr % align,
        addr & !((align - 1) as usize) == addr - addr % align,
{
    let k = lemma_power_of_two_exponent(align);
    vstd::arithmetic::power2::lemma_pow2_pos(k);
    vstd::bits::lemma_usize_low_bits_mask_is_mod(addr, k);
    let mask = (align - 1) as usize;
    assert(mask == vstd::bits::low_bits_mask(k) as usize);
    assert(addr & !mask == addr - (addr & mask)) by (bit_vector);
    assert(addr & mask <= addr) by (bit_vector);
}

/// Align the address `addr` up to the alignment `align`. The returned aligned address is always
/// greater or equal to `addr`. Returns `None` if the supplied alignment is not a power of 2, or
/// the resulting address overflowed.
pub fn align_up(addr: usize, align: usize) -> (r: Option<usize>)
    ensures
        r == align_up_spec(addr, align),
        r is Some <==> power_of_two(align as int) && round_up(addr as int, align as int)
            <= usize::MAX,
        r matches Some(a) ==> {
            &&& a >= addr
            &&& a < addr + align
            &&& is_aligned(a as int, align as int)
            &&& forall|m: int|
                m >= addr && #[trigger] is_aligned(m, align as int) ==> a <= m
        },
{
    if !align.is_power_of_two() {
        return None;
    }
    proof {
        lemma_mask_is_remainder(addr, align);
        lemma_round_up_is_least_multiple(addr as int, align as int);
    }
    let mask = align - 1;
    if addr & mask == 0 {
        Some(addr)
    } else {
        (addr & !mask).checked_add(align)
    }
}

} // verus!
