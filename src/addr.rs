use vstd::arithmetic::power2::{lemma_pow2_pos, pow2};
use vstd::arithmetic::div_mod::{lemma_fundamental_div_mod, lemma_mod_multiples_basic};
use vstd::bits::{lemma_usize_low_bits_mask_is_mod, low_bits_mask};
use vstd::prelude::*;

verus! {

/// `a` is a power of two that fits in a machine word.
pub open spec fn is_pow2(a: usize) -> bool {
    exists|k: nat| k < usize::BITS && a == pow2(k)
}

proof fn lemma_low_mask(x: usize, a: usize)
    requires
        is_pow2(a),
    ensures
        a > 0,
        (x - x % a) % (a as int) == 0,
        x & ((a - 1) as usize) == x % a,
        x & !((a - 1) as usize) == x - x % a,
{
    let k = choose|k: nat| k < usize::BITS && a == pow2(k);
    lemma_pow2_pos(k);
    lemma_usize_low_bits_mask_is_mod(x, k);
    let m = (a - 1) as usize;
    assert(low_bits_mask(k) as usize == m);
    assert(x & !m == x - (x & m)) by (bit_vector);
    lemma_fundamental_div_mod(x as int, a as int);
    lemma_mod_multiples_basic(x as int / a as int, a as int);
    assert(x - x % a == (x as int / a as int) * a) by (nonlinear_arith)
        requires
            x as int == a * (x as int / a as int) + x % a,
    ;
}

/// Rounds `value` up to the next multiple of `align`, a power of two.
pub fn align_up(value: usize, align: usize) -> (r: usize)
    requires
        is_pow2(align),
        value + align - 1 <= usize::MAX,
    ensures
        r % align == 0,
        value <= r < value + align,
{
    proof {
        lemma_low_mask(value, align);
    }
    let v = value + (align - 1);
    proof {
        lemma_low_mask(v, align);
    }
    v & !(align - 1)
}

/// Rounds `value` down to a multiple of `align`, a power of two.
pub fn align_down(value: usize, align: usize) -> (r: usize)
    requires
        is_pow2(align),
    ensures
        r % align == 0,
        r <= value < r + align,
{
    proof {
        lemma_low_mask(value, align);
    }
    value & !(align - 1)
}

/// Whether `value` is a multiple of `align`, a power of two.
pub fn is_aligned(value: usize, align: usize) -> (r: bool)
    requires
        is_pow2(align),
    ensures
        r == (value % align == 0),
{
    proof {
        lemma_low_mask(value, align);
    }
    value & (align - 1) == 0
}

/// Width of the page offset: a page number is an address shifted right by this.
pub const PAGE_OFFSET: u32 = 12;

/// A physical address (SV32: 32 bits, a 20-bit page number over a 12-bit offset).
#[derive(Clone, Copy, Debug, PartialEq, Eq, Structural)]
pub struct PhysAddr(pub u32);

/// A physical page number: a physical address without its 12-bit offset.
#[derive(Clone, Copy, Debug, PartialEq, Eq, Structural)]
pub struct PhysPageNum(pub u32);

/// A virtual page number: a virtual address without its 12-bit offset.
#[derive(Clone, Copy, Debug, PartialEq, Eq, Structural)]
pub struct VirtPageNum(pub u32);

/// A virtual address (SV32: two 10-bit page-number segments over a 12-bit offset).
#[derive(Clone, Copy, Debug, PartialEq, Eq, Structural)]
pub struct VirtAddr(pub u32);

/// The page number of an address: its offset bits are dropped.
pub open spec fn page_num_of(a: u32) -> u32 {
    (a / 4096) as u32
}

/// The address at which a page begins: bits shifted out of 32 are lost.
pub open spec fn page_addr_of(n: u32) -> u32 {
    ((n * 4096) % 0x1_0000_0000) as u32
}

proof fn lemma_shift_page(x: u32)
    ensures
        x >> 12u32 == page_num_of(x),
        x << 12u32 == page_addr_of(x),
{
    assert(x >> 12u32 == x / 4096) by (bit_vector);
    assert(x << 12u32 == (x & 0xfffff) * 4096) by (bit_vector);
    assert(x & 0xfffff == x % 0x100000) by (bit_vector);
    assert((x % 0x100000) * 4096 == (x * 4096) % 0x1_0000_0000) by (nonlinear_arith);
}

impl From<PhysAddr> for PhysPageNum {
    fn from(a: PhysAddr) -> (r: PhysPageNum)
        ensures
            r.0 == page_num_of(a.0),
    {
        proof {
            lemma_shift_page(a.0);
        }
        PhysPageNum(a.0 >> PAGE_OFFSET)
    }
}

impl vstd::std_specs::convert::FromSpecImpl<PhysAddr> for PhysPageNum {
    open spec fn obeys_from_spec() -> bool {
        true
    }

    open spec fn from_spec(a: PhysAddr) -> PhysPageNum {
        PhysPageNum(page_num_of(a.0))
    }
}

impl From<PhysPageNum> for PhysAddr {
    fn from(n: PhysPageNum) -> (r: PhysAddr)
        ensures
            r.0 == page_addr_of(n.0),
    {
        proof {
            lemma_shift_page(n.0);
        }
        PhysAddr(n.0 << PAGE_OFFSET)
    }
}

impl vstd::std_specs::convert::FromSpecImpl<PhysPageNum> for PhysAddr {
    open spec fn obeys_from_spec() -> bool {
        true
    }

    open spec fn from_spec(n: PhysPageNum) -> PhysAddr {
        PhysAddr(page_addr_of(n.0))
    }
}

impl From<VirtAddr> for VirtPageNum {
    fn from(a: VirtAddr) -> (r: VirtPageNum)
        ensures
            r.0 == page_num_of(a.0),
    {
        proof {
            lemma_shift_page(a.0);
        }
        VirtPageNum(a.0 >> PAGE_OFFSET)
    }
}

impl vstd::std_specs::convert::FromSpecImpl<VirtAddr> for VirtPageNum {
    open spec fn obeys_from_spec() -> bool {
        true
    }

    open spec fn from_spec(a: VirtAddr) -> VirtPageNum {
        VirtPageNum(page_num_of(a.0))
    }
}

impl From<VirtPageNum> for VirtAddr {
    fn from(n: VirtPageNum) -> (r: VirtAddr)
        ensures
            r.0 == page_addr_of(n.0),
    {
        proof {
            lemma_shift_page(n.0);
        }
        VirtAddr(n.0 << PAGE_OFFSET)
    }
}

impl vstd::std_specs::convert::FromSpecImpl<VirtPageNum> for VirtAddr {
    open spec fn obeys_from_spec() -> bool {
        true
    }

    open spec fn from_spec(n: VirtPageNum) -> VirtAddr {
        VirtAddr(page_addr_of(n.0))
    }
}

/// Page number and address convert into each other exactly when the address
/// is page-aligned and below 2^32.
pub proof fn lemma_page_round_trip(a: u32)
    ensures
        page_addr_of(page_num_of(a)) == a <==> a % 4096 == 0,
{
    assert(page_num_of(a) * 4096 < 0x1_0000_0000) by (nonlinear_arith)
        requires
            page_num_of(a) == a / 4096,
    ;
    assert(page_num_of(a) * 4096 == a - a % 4096) by (nonlinear_arith)
        requires
            page_num_of(a) == a / 4096,
    ;
}

} // verus!
