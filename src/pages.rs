use crate::addr::{is_aligned, is_pow2, PhysAddr, VirtAddr};
use vstd::arithmetic::power2::{lemma2_to64, pow2};
use crate::error::KernelError;
use vstd::prelude::*;

verus! {

/// Size of one page, in bytes.
pub const PAGE_SIZE: u32 = 0x1000;

/// Number of entries in one page table (root or leaf).
pub const PAGE_TABLE_LEN: usize = 1024;

/// Page-table-entry flag: the entry is valid.
pub const PAGE_V: u32 = 0x1;
/// Page-table-entry flag: the page can be read.
pub const PAGE_R: u32 = 0x2;
/// Page-table-entry flag: the page can be written.
pub const PAGE_W: u32 = 0x4;
/// Page-table-entry flag: the page can be executed.
pub const PAGE_X: u32 = 0x8;
/// Page-table-entry flag: the page is accessible in user mode.
pub const PAGE_U: u32 = 0x10;

/// The 32-bit little-endian word at word index `i` of a page.
#[verifier::opaque]
pub open spec fn word_at(page: Seq<u8>, i: int) -> u32 {
    (page[4 * i] as u32) | ((page[4 * i + 1] as u32) << 8u32) | ((page[4 * i + 2] as u32) << 16u32) | (
    (page[4 * i + 3] as u32) << 24u32)
}

pub open spec fn is_valid_pte(e: u32) -> bool {
    e & PAGE_V != 0
}

/// Address of the page an entry points to: its page-number field (bits
/// 10..31) shifted back over the page offset.
pub open spec fn pte_addr(e: u32) -> u32 {
    (e >> 10u32) << 12u32
}

/// A root-table entry pointing to the leaf table at `t`.
pub open spec fn table_pte(t: u32) -> u32 {
    ((t >> 12u32) << 10u32) | PAGE_V
}

/// A leaf entry mapping a page onto `paddr` with `flags`.
pub open spec fn leaf_pte(paddr: u32, flags: u32) -> u32 {
    ((paddr >> 12u32) << 10u32) | flags | PAGE_V
}

/// Root-table index of a virtual address: bits 22..31.
pub open spec fn vpn1(va: u32) -> int {
    ((va >> 22u32) & 0x3ff) as int
}

/// Leaf-table index of a virtual address: bits 12..21.
pub open spec fn vpn0(va: u32) -> int {
    ((va >> 12u32) & 0x3ff) as int
}

/// Abstract state of the physical memory that the kernel hands out.
pub ghost struct MemView {
    pub kernel_base: int,
    pub free_ram: int,
    pub free_ram_end: int,
    /// The pages handed out so far, in order: page `i` starts at
    /// `free_ram + i * PAGE_SIZE`.
    pub frames: Seq<Seq<u8>>,
}

impl MemView {
    /// The address the next allocation returns.
    pub open spec fn next(self) -> int {
        self.free_ram + self.frames.len() * PAGE_SIZE
    }

    pub open spec fn wf(self) -> bool {
        &&& self.free_ram % PAGE_SIZE as int == 0
        &&& 0 <= self.kernel_base <= u32::MAX
        &&& 0 <= self.free_ram <= self.next() <= self.free_ram_end <= u32::MAX
        &&& forall|i: int| 0 <= i < self.frames.len() ==> (#[trigger] self.frames[i]).len() == PAGE_SIZE
    }

    /// `a` is the first address of a page that has been handed out.
    pub open spec fn in_arena(self, a: int) -> bool {
        &&& self.free_ram <= a < self.next()
        &&& a % PAGE_SIZE as int == 0
    }

    /// Index in `frames` of the page that starts at `a`.
    pub open spec fn frame_index(self, a: int) -> int {
        (a - self.free_ram) / PAGE_SIZE as int
    }

    pub open spec fn frame(self, a: int) -> Seq<u8> {
        self.frames[self.frame_index(a)]
    }

    /// Entry `idx` of the page table at `table`.
    pub open spec fn entry(self, table: int, idx: int) -> u32 {
        word_at(self.frame(table), idx)
    }

    /// The leaf table that the root table at `root` names for `va`, if any.
    pub open spec fn leaf_table(self, root: int, va: u32) -> Option<int> {
        let e = self.entry(root, vpn1(va));
        if is_valid_pte(e) {
            Some(pte_addr(e) as int)
        } else {
            None
        }
    }

    /// The valid leaf entry that translates `va` through the tables rooted at
    /// `root`, if any: the hardware's two-level walk.
    pub open spec fn walk(self, root: int, va: u32) -> Option<u32> {
        match self.leaf_table(root, va) {
            Some(t) => if self.in_arena(t) && is_valid_pte(self.entry(t, vpn0(va))) {
                Some(self.entry(t, vpn0(va)))
            } else {
                None
            },
            None => None,
        }
    }

    /// The tables rooted at `root` lie in the arena, and distinct valid root
    /// entries name distinct leaf tables, none of them the root itself.
    pub open spec fn table_wf(self, root: int) -> bool {
        &&& self.in_arena(root)
        &&& forall|i: int|
            0 <= i < PAGE_TABLE_LEN && is_valid_pte(#[trigger] self.entry(root, i)) ==> {
                &&& self.in_arena(pte_addr(self.entry(root, i)) as int)
                &&& pte_addr(self.entry(root, i)) != root
            }
        &&& forall|i: int, j: int|
            0 <= i < PAGE_TABLE_LEN && 0 <= j < PAGE_TABLE_LEN && i != j && is_valid_pte(
                #[trigger] self.entry(root, i),
            ) && is_valid_pte(#[trigger] self.entry(root, j)) ==> pte_addr(self.entry(root, i))
                != pte_addr(self.entry(root, j))
    }

    /// Page `f` of the arena is one of the tables rooted at `root`.
    pub open spec fn owns(self, root: int, f: int) -> bool {
        ||| f == self.frame_index(root)
        ||| exists|i: int|
            0 <= i < PAGE_TABLE_LEN && is_valid_pte(#[trigger] self.entry(root, i))
                && self.frame_index(pte_addr(self.entry(root, i)) as int) == f
    }
}

impl MemView {
    /// The memory after `n` zero-filled pages were handed out.
    pub open spec fn after_alloc(self, n: nat) -> MemView {
        MemView { frames: self.frames + Seq::new(n, |i: int| zero_page()), ..self }
    }
}

/// The root table at `root` maps nothing yet.
pub open spec fn no_valid_entry(m: MemView, root: int) -> bool {
    forall|i: int| 0 <= i < PAGE_TABLE_LEN ==> !is_valid_pte(#[trigger] m.entry(root, i))
}

/// A page full of zero bytes.
pub open spec fn zero_page() -> Seq<u8> {
    Seq::new(PAGE_SIZE as nat, |i: int| 0u8)
}

/// The physical pages of the free-RAM region, handed out by a bump cursor
/// that only moves forward: memory is never freed.
pub struct PhysMemory {
    kernel_base: u32,
    free_ram: u32,
    free_ram_end: u32,
    next: u32,
    frames: Vec<Vec<u8>>,
}

impl View for PhysMemory {
    type V = MemView;

    closed spec fn view(&self) -> MemView {
        MemView {
            kernel_base: self.kernel_base as int,
            free_ram: self.free_ram as int,
            free_ram_end: self.free_ram_end as int,
            frames: self.frames@.map_values(|f: Vec<u8>| f@),
        }
    }
}

impl PhysMemory {
    /// The cursor field agrees with the pages handed out.
    pub closed spec fn inv(&self) -> bool {
        &&& self@.wf()
        &&& self.next as int == self@.next()
    }

    /// The cursor invariant includes the well-formedness of the view.
    pub proof fn lemma_inv_wf(&self)
        requires
            self.inv(),
        ensures
            self@.wf(),
            self@.next() % PAGE_SIZE as int == 0,
    {
    }

    /// The memory of a kernel loaded at `kernel_base` whose free RAM spans
    /// `free_ram .. free_ram_end`; nothing is handed out yet.
    pub fn new(kernel_base: u32, free_ram: u32, free_ram_end: u32) -> (r: PhysMemory)
        requires
            free_ram % PAGE_SIZE == 0,
            free_ram <= free_ram_end,
        ensures
            r.inv(),
            r@.kernel_base == kernel_base,
            r@.free_ram == free_ram,
            r@.free_ram_end == free_ram_end,
            r@.frames.len() == 0,
    {
        let r = PhysMemory { kernel_base, free_ram, free_ram_end, next: free_ram, frames: Vec::new() };
        assert(r@.frames =~= Seq::<Seq<u8>>::empty());
        r
    }

    pub fn kernel_base(&self) -> (r: u32)
        ensures
            r == self@.kernel_base,
    {
        self.kernel_base
    }

    pub fn free_ram_end(&self) -> (r: u32)
        ensures
            r == self@.free_ram_end,
    {
        self.free_ram_end
    }

    /// The address the next allocation returns.
    pub fn next_paddr(&self) -> (r: u32)
        requires
            self.inv(),
        ensures
            r == self@.next(),
    {
        self.next
    }
}

proof fn lemma_word_bytes(e: u32)
    ensures
        ((e as u8) as u32) | ((((e >> 8u32) as u8) as u32) << 8u32) | ((((e >> 16u32) as u8) as u32)
            << 16u32) | ((((e >> 24u32) as u8) as u32) << 24u32) == e,
{
    assert(((e as u8) as u32) | ((((e >> 8u32) as u8) as u32) << 8u32) | ((((e >> 16u32) as u8) as u32)
        << 16u32) | ((((e >> 24u32) as u8) as u32) << 24u32) == e) by (bit_vector);
}

pub proof fn lemma_zero_word(page: Seq<u8>, i: int)
    requires
        page == zero_page(),
        0 <= i < PAGE_TABLE_LEN,
    ensures
        word_at(page, i) == 0,
{
    reveal(word_at);
    assert(((0u8 as u32) | ((0u8 as u32) << 8u32) | ((0u8 as u32) << 16u32) | ((0u8 as u32) << 24u32))
        == 0u32) by (bit_vector);
}

impl PhysMemory {
    fn frame_of(&self, a: u32) -> (r: usize)
        requires
            self.inv(),
            self@.in_arena(a as int),
        ensures
            r == self@.frame_index(a as int),
            0 <= r < self@.frames.len(),
    {
        proof {
            assert((a - self.free_ram) / (PAGE_SIZE as int) < self@.frames.len()) by (nonlinear_arith)
                requires
                    a < self.free_ram + self@.frames.len() * PAGE_SIZE,
                    self.free_ram <= a,
            ;
        }
        ((a - self.free_ram) / PAGE_SIZE) as usize
    }

    /// Reads entry `idx` of the page table at `table`.
    fn read_entry(&self, table: u32, idx: usize) -> (r: u32)
        requires
            self.inv(),
            self@.in_arena(table as int),
            idx < PAGE_TABLE_LEN,
        ensures
            r == self@.entry(table as int, idx as int),
    {
        let f = self.frame_of(table);
        let page = &self.frames[f];
        assert(page@ == self@.frames[f as int]);
        let k = 4 * idx;
        proof {
            reveal(word_at);
        }
        (page[k] as u32) | ((page[k + 1] as u32) << 8) | ((page[k + 2] as u32) << 16) | ((page[k + 3]
            as u32) << 24)
    }

    /// Writes `e` into entry `idx` of the page table at `table`.
    fn write_entry(&mut self, table: u32, idx: usize, e: u32)
        requires
            old(self).inv(),
            old(self)@.in_arena(table as int),
            idx < PAGE_TABLE_LEN,
        ensures
            final(self).inv(),
            final(self)@.kernel_base == old(self)@.kernel_base,
            final(self)@.free_ram == old(self)@.free_ram,
            final(self)@.free_ram_end == old(self)@.free_ram_end,
            final(self)@.frames.len() == old(self)@.frames.len(),
            forall|f: int|
                0 <= f < old(self)@.frames.len() && f != old(self)@.frame_index(table as int)
                    ==> #[trigger] final(self)@.frames[f] == old(self)@.frames[f],
            forall|j: int|
                0 <= j < PAGE_TABLE_LEN ==> #[trigger] final(self)@.entry(table as int, j) == if j
                    == idx {
                    e
                } else {
                    old(self)@.entry(table as int, j)
                },
    {
        let f = self.frame_of(table);
        let k = 4 * idx;
        let ghost before = self.frames@[f as int]@;
        assert(self@.frames[f as int] == before);
        self.frames[f].set(k, #[verifier::truncate] (e as u8));
        self.frames[f].set(k + 1, #[verifier::truncate] ((e >> 8) as u8));
        self.frames[f].set(k + 2, #[verifier::truncate] ((e >> 16) as u8));
        self.frames[f].set(k + 3, #[verifier::truncate] ((e >> 24) as u8));
        proof {
            lemma_word_bytes(e);
            reveal(word_at);
            let after = self@.frames[f as int];
            assert(self@.frames =~= old(self)@.frames.update(f as int, after));
            assert(after.len() == PAGE_SIZE);
            assert forall|j: int| 0 <= j < PAGE_TABLE_LEN implies #[trigger] word_at(after, j) == if j
                == idx {
                e
            } else {
                word_at(before, j)
            } by {
                if j != idx {
                    assert(after[4 * j] == before[4 * j]);
                    assert(after[4 * j + 1] == before[4 * j + 1]);
                    assert(after[4 * j + 2] == before[4 * j + 2]);
                    assert(after[4 * j + 3] == before[4 * j + 3]);
                }
            }
        }
    }
}

fn zeroed_page() -> (r: Vec<u8>)
    ensures
        r@ == zero_page(),
{
    let mut v: Vec<u8> = Vec::new();
    let mut i: u32 = 0;
    while i < PAGE_SIZE
        invariant
            i <= PAGE_SIZE,
            v@.len() == i,
            forall|k: int| 0 <= k < i ==> v@[k] == 0,
        decreases PAGE_SIZE - i,
    {
        v.push(0);
        i = i + 1;
    }
    assert(v@ =~= zero_page());
    v
}

/// Hands out `n` contiguous zero-filled pages and returns the address of the
/// first. Fails with `OutOfMemory`, changing nothing, when the cursor would
/// move past the end of free RAM.
pub fn alloc_pages(mem: &mut PhysMemory, n: usize) -> (r: Result<PhysAddr, KernelError>)
    requires
        old(mem).inv(),
    ensures
        final(mem).inv(),
        final(mem)@.kernel_base == old(mem)@.kernel_base,
        final(mem)@.free_ram == old(mem)@.free_ram,
        final(mem)@.free_ram_end == old(mem)@.free_ram_end,
        final(mem)@.wf(),
        r matches Ok(a) ==> a.0 as int == old(mem)@.next() && a.0 % PAGE_SIZE == 0 && old(mem)@.free_ram
            <= a.0 && a.0 + n * PAGE_SIZE <= old(mem)@.free_ram_end,
        old(mem)@.next() + n * PAGE_SIZE <= old(mem)@.free_ram_end ==> {
            &&& r == Ok::<PhysAddr, KernelError>(PhysAddr(old(mem)@.next() as u32))
            &&& final(mem)@.frames == old(mem)@.frames + Seq::new(n as nat, |i: int| zero_page())
            &&& final(mem)@ == old(mem)@.after_alloc(n as nat)
        },
        old(mem)@.next() + n * PAGE_SIZE > old(mem)@.free_ram_end ==> {
            &&& r == Err::<PhysAddr, KernelError>(KernelError::OutOfMemory)
            &&& final(mem)@ == old(mem)@
        },
{
    let room = (mem.free_ram_end - mem.next) / PAGE_SIZE;
    if n > room as usize {
        return Err(KernelError::OutOfMemory);
    }
    let start = mem.next;
    let ghost old_frames = mem@.frames;
    let mut i: usize = 0;
    while i < n
        invariant
            i <= n,
            n <= room,
            room == (mem.free_ram_end - start) / PAGE_SIZE as int,
            mem.inv(),
            mem.kernel_base == old(mem).kernel_base,
            mem.free_ram == old(mem).free_ram,
            mem.free_ram_end == old(mem).free_ram_end,
            start == old(mem)@.next(),
            mem.next == start + i * PAGE_SIZE,
            mem@.frames == old_frames + Seq::new(i as nat, |k: int| zero_page()),
        decreases n - i,
    {
        let page = zeroed_page();
        let ghost prev = mem@.frames;
        proof {
            assert(start + (i + 1) * PAGE_SIZE <= mem.free_ram_end) by (nonlinear_arith)
                requires
                    i < room,
                    room == (mem.free_ram_end - start) / PAGE_SIZE as int,
                    start <= mem.free_ram_end,
            ;
        }
        mem.frames.push(page);
        assert(mem@.frames =~= prev.push(zero_page()));
        mem.next = mem.next + PAGE_SIZE;
        i = i + 1;
        assert(mem@.frames =~= old_frames + Seq::new(i as nat, |k: int| zero_page()));
    }
    Ok(PhysAddr(start))
}


proof fn lemma_page_size_pow2()
    ensures
        is_pow2(PAGE_SIZE as usize),
{
    lemma2_to64();
    assert(PAGE_SIZE as usize == pow2(12));
}

proof fn lemma_table_pte(t: u32)
    requires
        t % 4096 == 0,
    ensures
        is_valid_pte(table_pte(t)),
        pte_addr(table_pte(t)) == t,
{
    assert(t & 0xfff == t % 4096) by (bit_vector);
    assert(t & 0xfff == 0 ==> (((t >> 12u32) << 10u32) | 1u32) & 1u32 != 0 && (((((t >> 12u32) << 10u32)
        | 1u32) >> 10u32) << 12u32) == t) by (bit_vector);
}

/// A leaf entry is valid, and for an aligned address and flags within bits
/// 0..9 it holds exactly that address and those flags.
pub proof fn lemma_leaf_pte(paddr: u32, flags: u32)
    ensures
        is_valid_pte(leaf_pte(paddr, flags)),
        paddr % 4096 == 0 && flags < 1024 ==> pte_addr(leaf_pte(paddr, flags)) == paddr && leaf_pte(
            paddr,
            flags,
        ) & 0x3ff == flags | PAGE_V,
{
    assert(((((paddr >> 12u32) << 10u32) | flags | 1u32) & 1u32) != 0) by (bit_vector);
    assert(paddr & 0xfff == paddr % 4096) by (bit_vector);
    assert(paddr & 0xfff == 0 && flags < 1024 ==> ((((((paddr >> 12u32) << 10u32) | flags | 1u32)
        >> 10u32) << 12u32) == paddr && (((paddr >> 12u32) << 10u32) | flags | 1u32) & 0x3ff == flags
        | 1u32)) by (bit_vector);
}

/// Two distinct page-aligned virtual addresses differ in at least one of
/// their two table indices.
pub proof fn lemma_vpn_distinct(a: u32, b: u32)
    requires
        a % 4096 == 0,
        b % 4096 == 0,
        a != b,
    ensures
        vpn1(a) != vpn1(b) || vpn0(a) != vpn0(b),
{
    assert(a & 0xfff == a % 4096) by (bit_vector);
    assert(b & 0xfff == b % 4096) by (bit_vector);
    assert(a & 0xfff == 0 && b & 0xfff == 0 && a != b ==> ((a >> 22u32) & 0x3ff) != ((b >> 22u32)
        & 0x3ff) || ((a >> 12u32) & 0x3ff) != ((b >> 12u32) & 0x3ff)) by (bit_vector);
}

pub proof fn lemma_vpn_range(v: u32)
    ensures
        0 <= vpn1(v) < PAGE_TABLE_LEN,
        0 <= vpn0(v) < PAGE_TABLE_LEN,
{
    assert((v >> 22u32) & 0x3ff <= 0x3ff && (v >> 12u32) & 0x3ff <= 0x3ff) by (bit_vector);
}

proof fn lemma_frame_index(m: MemView, a: int, b: int)
    requires
        m.wf(),
        m.in_arena(a),
        m.in_arena(b),
    ensures
        0 <= m.frame_index(a) < m.frames.len(),
        a != b ==> m.frame_index(a) != m.frame_index(b),
{
    assert(0 <= m.frame_index(a) < m.frames.len()) by (nonlinear_arith)
        requires
            m.free_ram <= a < m.free_ram + m.frames.len() * 4096,
            m.frame_index(a) == (a - m.free_ram) / 4096,
    ;
    assert(a != b ==> m.frame_index(a) != m.frame_index(b)) by (nonlinear_arith)
        requires
            m.free_ram % 4096 == 0,
            a % 4096 == 0,
            b % 4096 == 0,
            m.free_ram <= a,
            m.free_ram <= b,
            m.frame_index(a) == (a - m.free_ram) / 4096,
            m.frame_index(b) == (b - m.free_ram) / 4096,
    ;
}

/// Inserts or overwrites the one 4 KiB mapping of `vaddr` onto `paddr` with
/// `flags` in the tables rooted at `root`, taking a fresh page for the leaf
/// table when the root names none for `vaddr`.
///
/// Fails with `Unaligned`, changing nothing, when either address is not
/// page-aligned, and with `OutOfMemory`, changing nothing, when a leaf table
/// is needed and no page is left.
pub fn map_page(mem: &mut PhysMemory, root: PhysAddr, vaddr: VirtAddr, paddr: PhysAddr, flags: u32) -> (r:
    Result<(), KernelError>)
    requires
        old(mem).inv(),
        old(mem)@.table_wf(root.0 as int),
    ensures
        final(mem).inv(),
        final(mem)@.kernel_base == old(mem)@.kernel_base,
        final(mem)@.free_ram == old(mem)@.free_ram,
        final(mem)@.free_ram_end == old(mem)@.free_ram_end,
        !(vaddr.0 % 4096 == 0 && paddr.0 % 4096 == 0) ==> r == Err::<(), KernelError>(
            KernelError::Unaligned,
        ),
        vaddr.0 % 4096 == 0 && paddr.0 % 4096 == 0 && old(mem)@.leaf_table(root.0 as int, vaddr.0)
            is None && old(mem)@.next() + PAGE_SIZE > old(mem)@.free_ram_end ==> r == Err::<
            (),
            KernelError,
        >(KernelError::OutOfMemory),
        r is Err ==> final(mem)@ == old(mem)@,
        r is Ok <==> (vaddr.0 % 4096 == 0 && paddr.0 % 4096 == 0 && (old(mem)@.leaf_table(
            root.0 as int,
            vaddr.0,
        ) is Some || old(mem)@.next() + PAGE_SIZE <= old(mem)@.free_ram_end)),
        r is Ok ==> {
            &&& final(mem)@.table_wf(root.0 as int)
            &&& final(mem)@.walk(root.0 as int, vaddr.0) == Some(leaf_pte(paddr.0, flags))
            &&& forall|v: u32|
                vpn1(v) != vpn1(vaddr.0) || vpn0(v) != vpn0(vaddr.0) ==> #[trigger] final(mem)@.walk(
                    root.0 as int,
                    v,
                ) == old(mem)@.walk(root.0 as int, v)
            &&& final(mem)@.leaf_table(root.0 as int, vaddr.0) == Some(
                match old(mem)@.leaf_table(root.0 as int, vaddr.0) {
                    Some(t) => t,
                    None => old(mem)@.next(),
                },
            )
            &&& old(mem)@.leaf_table(root.0 as int, vaddr.0) is None ==> final(mem)@.entry(
                root.0 as int,
                vpn1(vaddr.0),
            ) == table_pte(old(mem)@.next() as u32)
            &&& forall|j: int|
                0 <= j < PAGE_TABLE_LEN && j != vpn0(vaddr.0) ==> #[trigger] final(mem)@.entry(
                    final(mem)@.leaf_table(root.0 as int, vaddr.0)->Some_0,
                    j,
                ) == match old(mem)@.leaf_table(root.0 as int, vaddr.0) {
                    Some(t) => old(mem)@.entry(t, j),
                    None => 0u32,
                }
            &&& forall|i: int|
                0 <= i < PAGE_TABLE_LEN && (i != vpn1(vaddr.0) || is_valid_pte(
                    old(mem)@.entry(root.0 as int, i),
                )) ==> #[trigger] final(mem)@.entry(root.0 as int, i) == old(mem)@.entry(
                    root.0 as int,
                    i,
                )
            &&& final(mem)@.frames.len() == old(mem)@.frames.len() + if old(mem)@.leaf_table(
                root.0 as int,
                vaddr.0,
            ) is None {
                1int
            } else {
                0int
            }
            &&& forall|f: int|
                0 <= f < old(mem)@.frames.len() && !old(mem)@.owns(root.0 as int, f)
                    ==> #[trigger] final(mem)@.frames[f] == old(mem)@.frames[f]
        },
{
    proof {
        lemma_page_size_pow2();
    }
    if !is_aligned(vaddr.0 as usize, PAGE_SIZE as usize) || !is_aligned(
        paddr.0 as usize,
        PAGE_SIZE as usize,
    ) {
        return Err(KernelError::Unaligned);
    }
    let ghost m0 = mem@;
    let ghost ra = root.0 as int;
    let ghost va = vaddr.0;
    let i1 = ((vaddr.0 >> 22) & 0x3ff) as usize;
    let i0 = ((vaddr.0 >> 12) & 0x3ff) as usize;
    proof {
        let x = vaddr.0;
        assert((x >> 22u32) & 0x3ff <= 0x3ff && (x >> 12u32) & 0x3ff <= 0x3ff) by (bit_vector);
    }
    let e1 = mem.read_entry(root.0, i1);
    assert(e1 & PAGE_V != 0 <==> is_valid_pte(e1));
    if e1 & PAGE_V == 0 {
        let t = match alloc_pages(mem, 1) {
            Ok(t) => t,
            Err(e) => {
                return Err(e);
            },
        };
        let ghost m1 = mem@;
        proof {
            lemma_table_pte(t.0);
            assert(m1.frames[m0.frames.len() as int] == zero_page());
            assert forall|f: int| 0 <= f < m0.frames.len() implies m1.frames[f] == m0.frames[f] by {
                assert(m1.frames[f] == (m0.frames + Seq::new(1nat, |i: int| zero_page()))[f]);
            }
            assert forall|i: int| 0 <= i < PAGE_TABLE_LEN implies m1.entry(ra, i) == m0.entry(ra, i) by {
                lemma_frame_index(m0, ra, ra);
            }
        }
        mem.write_entry(root.0, i1, ((t.0 >> 12) << 10) | PAGE_V);
        proof {
            let m2 = mem@;
            let n = m0.next();
            lemma_frame_index(m1, ra, n);
            assert(m2.frame(n) == zero_page());
            assert forall|i: int| 0 <= i < PAGE_TABLE_LEN implies #[trigger] m2.entry(n, i) == 0 by {
                lemma_zero_word(m2.frame(n), i);
            }
            assert forall|i: int|
                0 <= i < PAGE_TABLE_LEN && is_valid_pte(#[trigger] m2.entry(ra, i)) implies {
                &&& m2.in_arena(pte_addr(m2.entry(ra, i)) as int)
                &&& pte_addr(m2.entry(ra, i)) != ra
                &&& (i != i1 ==> pte_addr(m2.entry(ra, i)) < n)
            } by {
                if i != i1 {
                    assert(m0.entry(ra, i) == m2.entry(ra, i));
                }
            }
            assert(m2.table_wf(ra));
            assert forall|f: int| 0 <= f < m0.frames.len() && f != m0.frame_index(ra) implies #[trigger] m2.frames[f] == m0.frames[f] by {
                assert(m1.frames[f] == m0.frames[f]);
            }
            assert forall|i: int| 0 <= i < PAGE_TABLE_LEN && i != i1 implies #[trigger] m2.entry(ra, i) == m0.entry(ra, i) by {
                assert(m1.entry(ra, i) == m0.entry(ra, i));
            }
            assert(m2.frames.len() == m0.frames.len() + 1);
        }
    }
    let e1 = mem.read_entry(root.0, i1);
    let ghost m3 = mem@;
    proof {
        assert(is_valid_pte(e1));
        assert(m3.table_wf(ra));
    }
    let t0 = (e1 >> 10) << 12;
    mem.write_entry(t0, i0, ((paddr.0 >> 12) << 10) | flags | PAGE_V);
    proof {
        let m4 = mem@;
        lemma_leaf_pte(paddr.0, flags);
        lemma_frame_index(m3, ra, t0 as int);
        assert forall|i: int| 0 <= i < PAGE_TABLE_LEN implies #[trigger] m4.entry(ra, i) == m3.entry(
            ra,
            i,
        ) by {}
        assert(m4.table_wf(ra));
        assert forall|v: u32| vpn1(v) != vpn1(va) || vpn0(v) != vpn0(va) implies #[trigger] m4.walk(
            ra,
            v,
        ) == m0.walk(ra, v) by {
            lemma_vpn_range(v);
            lemma_vpn_range(va);
            if vpn1(v) != vpn1(va) {
                assert(m3.entry(ra, vpn1(v)) == m0.entry(ra, vpn1(v)));
                if is_valid_pte(m3.entry(ra, vpn1(v))) {
                    let tv = pte_addr(m3.entry(ra, vpn1(v))) as int;
                    assert(m3.in_arena(tv));
                    assert(m0.in_arena(tv));
                    assert(is_valid_pte(m3.entry(ra, vpn1(va))));
                    assert(tv != t0);
                    lemma_frame_index(m3, tv, t0 as int);
                    lemma_frame_index(m0, tv, ra);
                    assert(m4.frame(tv) == m3.frame(tv));
                    assert(m3.frame(tv) == m0.frame(tv));
                }
            } else {
                assert(vpn0(v) != vpn0(va));
                if is_valid_pte(m0.entry(ra, vpn1(va))) {
                    assert(m3 == m0);
                } else {
                    assert(m3.entry(t0 as int, vpn0(v)) == 0);
                    assert(!is_valid_pte(0u32)) by (bit_vector);
                }
            }
        }
    }
    Ok(())
}


/// Read, write and execute: the rights of the kernel's own pages.
pub const KERNEL_FLAGS: u32 = 0xe;

/// Number of 4 MiB root-table segments that the pages of `lo .. hi` touch.
pub open spec fn segments_spanned(lo: int, hi: int) -> int {
    if lo < hi {
        (hi - 1) / 0x400000 - lo / 0x400000 + 1
    } else {
        0
    }
}

/// `va` is a page of the kernel's identity-mapped range.
pub open spec fn in_kernel_range(m: MemView, va: u32) -> bool {
    m.kernel_base <= va < m.free_ram_end && va % 4096 == 0
}

proof fn lemma_vpn1_div(p: u32)
    ensures
        vpn1(p) == p / 0x400000,
{
    assert((p >> 22u32) & 0x3ff == p / 0x400000) by (bit_vector);
}

proof fn lemma_vpn1_steps(p: u32, e: u32)
    requires
        4096 <= p,
        p < e,
    ensures
        vpn1((p - 4096) as u32) <= vpn1(p) <= vpn1((p - 4096) as u32) + 1,
        vpn1(p) <= vpn1((e - 1) as u32),
{
    lemma_vpn1_div(p);
    lemma_vpn1_div((p - 4096) as u32);
    lemma_vpn1_div((e - 1) as u32);
    assert(4096 <= p ==> ((p - 4096u32) as u32) / 0x400000 <= p / 0x400000 <= ((p - 4096u32) as u32)
        / 0x400000 + 1) by (bit_vector);
    assert(p < e ==> p / 0x400000 <= ((e - 1u32) as u32) / 0x400000) by (bit_vector);
}

proof fn lemma_ident_room(
    m0_len: int,
    mi_len: int,
    next0: int,
    spanned: int,
    kb: u32,
    p: u32,
    end: u32,
)
    requires
        next0 + spanned * 4096 <= end,
        spanned == vpn1((end - 1) as u32) - vpn1(kb) + 1,
        kb <= p < end,
        p == kb ==> mi_len == m0_len,
        p > kb ==> 4096 <= p && mi_len <= m0_len + vpn1((p - 4096) as u32) - vpn1(kb) + 1,
        p > kb ==> vpn1(p) != vpn1((p - 4096) as u32),
    ensures
        next0 + (mi_len - m0_len) * 4096 + 4096 <= end,
{
    lemma_vpn1_div(kb);
    lemma_vpn1_div(p);
    lemma_vpn1_div((end - 1) as u32);
    assert(kb <= p < end ==> kb / 0x400000 <= p / 0x400000 <= ((end - 1u32) as u32) / 0x400000)
        by (bit_vector);
    if p > kb {
        lemma_vpn1_steps(p, end);
    }
}

proof fn lemma_ident_walks(mi: MemView, mj: MemView, ra: int, kb: u32, pa: u32)
    requires
        forall|va: u32|
            #![trigger mi.walk(ra, va)]
            va % 4096 == 0 && kb <= va < pa ==> mi.walk(ra, va) == Some(leaf_pte(va, KERNEL_FLAGS)),
        pa % 4096 == 0,
        mj.walk(ra, pa) == Some(leaf_pte(pa, KERNEL_FLAGS)),
        forall|v: u32|
            vpn1(v) != vpn1(pa) || vpn0(v) != vpn0(pa) ==> #[trigger] mj.walk(ra, v) == mi.walk(ra, v),
    ensures
        forall|va: u32|
            #![trigger mj.walk(ra, va)]
            va % 4096 == 0 && kb <= va <= pa ==> mj.walk(ra, va) == Some(leaf_pte(va, KERNEL_FLAGS)),
{
    assert forall|va: u32|
        #![trigger mj.walk(ra, va)]
        va % 4096 == 0 && kb <= va <= pa implies mj.walk(ra, va) == Some(leaf_pte(va, KERNEL_FLAGS)) by {
        if va != pa {
            lemma_vpn_distinct(va, pa);
            assert(mi.walk(ra, va) == Some(leaf_pte(va, KERNEL_FLAGS)));
        }
    }
}

proof fn lemma_ident_others(m0: MemView, mi: MemView, mj: MemView, ra: int, kb: u32, pa: u32)
    requires
        pa % 4096 == 0,
        kb <= pa,
        forall|v: u32| v % 4096 == 0 && !(kb <= v < pa) ==> #[trigger] mi.walk(ra, v) == m0.walk(ra, v),
        forall|v: u32|
            vpn1(v) != vpn1(pa) || vpn0(v) != vpn0(pa) ==> #[trigger] mj.walk(ra, v) == mi.walk(ra, v),
    ensures
        forall|v: u32|
            v % 4096 == 0 && !(kb <= v < pa + PAGE_SIZE) ==> #[trigger] mj.walk(ra, v) == m0.walk(ra, v),
{
    assert forall|v: u32| v % 4096 == 0 && !(kb <= v < pa + PAGE_SIZE) implies #[trigger] mj.walk(ra, v)
        == m0.walk(ra, v) by {
        lemma_vpn_distinct(v, pa);
        assert(mi.walk(ra, v) == m0.walk(ra, v));
    }
}

proof fn lemma_ident_frames(m0: MemView, mi: MemView, mj: MemView, ra: int, pa: u32)
    requires
        mi.wf(),
        mj.wf(),
        m0.frames.len() <= mi.frames.len(),
        mi.free_ram == m0.free_ram,
        mj.free_ram == m0.free_ram,
        forall|f: int|
            0 <= f < m0.frames.len() && !m0.owns(ra, f) ==> #[trigger] mi.frames[f] == m0.frames[f],
        forall|i: int|
            0 <= i < PAGE_TABLE_LEN && is_valid_pte(#[trigger] mi.entry(ra, i)) ==> mi.entry(ra, i)
                == m0.entry(ra, i) || mi.frame_index(pte_addr(mi.entry(ra, i)) as int)
                >= m0.frames.len(),
        forall|f: int|
            0 <= f < mi.frames.len() && !mi.owns(ra, f) ==> #[trigger] mj.frames[f] == mi.frames[f],
        forall|i: int|
            0 <= i < PAGE_TABLE_LEN && (i != vpn1(pa) || is_valid_pte(mi.entry(ra, i)))
                ==> #[trigger] mj.entry(ra, i) == mi.entry(ra, i),
        mj.leaf_table(ra, pa) == Some(
            match mi.leaf_table(ra, pa) {
                Some(t) => t,
                None => mi.next(),
            },
        ),
    ensures
        forall|f: int|
            0 <= f < m0.frames.len() && !m0.owns(ra, f) ==> #[trigger] mj.frames[f] == m0.frames[f],
        forall|i: int|
            0 <= i < PAGE_TABLE_LEN && is_valid_pte(#[trigger] mj.entry(ra, i)) ==> mj.entry(ra, i)
                == m0.entry(ra, i) || mj.frame_index(pte_addr(mj.entry(ra, i)) as int)
                >= m0.frames.len(),
{
    assert forall|f: int| 0 <= f < m0.frames.len() && !m0.owns(ra, f) implies #[trigger] mj.frames[f]
        == m0.frames[f] by {
        if mi.owns(ra, f) && f != mi.frame_index(ra) {
            let i = choose|i: int|
                0 <= i < PAGE_TABLE_LEN && is_valid_pte(#[trigger] mi.entry(ra, i)) && mi.frame_index(
                    pte_addr(mi.entry(ra, i)) as int,
                ) == f;
            assert(mi.entry(ra, i) == m0.entry(ra, i));
            assert(m0.owns(ra, f));
        }
    }
    assert forall|i: int|
        0 <= i < PAGE_TABLE_LEN && is_valid_pte(#[trigger] mj.entry(ra, i)) implies mj.entry(ra, i)
        == m0.entry(ra, i) || mj.frame_index(pte_addr(mj.entry(ra, i)) as int) >= m0.frames.len() by {
        if i == vpn1(pa) && !is_valid_pte(mi.entry(ra, i)) {
            assert(pte_addr(mj.entry(ra, i)) == mi.next());
            assert(mj.frame_index(mi.next()) == mi.frames.len());
        } else {
            assert(mj.entry(ra, i) == mi.entry(ra, i));
        }
    }
}

/// Maps every page from the kernel's load base up to the end of free RAM onto
/// itself, readable, writable and executable, in the tables rooted at `root`,
/// so that the kernel stays addressable under that address space.
///
/// Fails with `Unaligned` when that range is not empty and the load base is
/// not page-aligned. Succeeds whenever the arena has a page left for each
/// 4 MiB segment of the range.
pub fn ident_map_in_kernel(mem: &mut PhysMemory, root: u32) -> (r: Result<(), KernelError>)
    requires
        old(mem).inv(),
        old(mem)@.table_wf(root as int),
    ensures
        final(mem).inv(),
        final(mem)@.kernel_base == old(mem)@.kernel_base,
        final(mem)@.free_ram == old(mem)@.free_ram,
        final(mem)@.free_ram_end == old(mem)@.free_ram_end,
        old(mem)@.kernel_base < old(mem)@.free_ram_end && old(mem)@.kernel_base % 4096 != 0 ==> r
            == Err::<(), KernelError>(KernelError::Unaligned),
        (old(mem)@.kernel_base >= old(mem)@.free_ram_end || old(mem)@.kernel_base % 4096 == 0)
            && old(mem)@.next() + segments_spanned(old(mem)@.kernel_base, old(mem)@.free_ram_end)
            * PAGE_SIZE <= old(mem)@.free_ram_end ==> r is Ok,
        r is Err ==> r == Err::<(), KernelError>(KernelError::OutOfMemory) || r == Err::<
            (),
            KernelError,
        >(KernelError::Unaligned),
        r == Err::<(), KernelError>(KernelError::Unaligned) ==> old(mem)@.kernel_base % 4096 != 0,
        r is Ok ==> final(mem)@.frames.len() <= old(mem)@.frames.len() + segments_spanned(
            old(mem)@.kernel_base,
            old(mem)@.free_ram_end,
        ),
        no_valid_entry(old(mem)@, root as int) && r is Ok ==> old(mem)@.next() + segments_spanned(
            old(mem)@.kernel_base,
            old(mem)@.free_ram_end,
        ) * PAGE_SIZE <= old(mem)@.free_ram_end,
        r is Ok ==> {
            &&& final(mem)@.table_wf(root as int)
            &&& forall|va: u32| #[trigger]
                in_kernel_range(old(mem)@, va) ==> final(mem)@.walk(root as int, va) == Some(
                    leaf_pte(va, KERNEL_FLAGS),
                )
            &&& forall|v: u32|
                v % 4096 == 0 && !(old(mem)@.kernel_base <= v < old(mem)@.free_ram_end)
                    ==> #[trigger] final(mem)@.walk(root as int, v) == old(mem)@.walk(root as int, v)
            &&& forall|f: int|
                0 <= f < old(mem)@.frames.len() && !old(mem)@.owns(root as int, f)
                    ==> #[trigger] final(mem)@.frames[f] == old(mem)@.frames[f]
            &&& forall|i: int|
                0 <= i < PAGE_TABLE_LEN && is_valid_pte(#[trigger] final(mem)@.entry(root as int, i))
                    ==> final(mem)@.entry(root as int, i) == old(mem)@.entry(root as int, i)
                    || final(mem)@.frame_index(pte_addr(final(mem)@.entry(root as int, i)) as int)
                    >= old(mem)@.frames.len()
        },
{
    let ghost m0 = mem@;
    let ghost ra = root as int;
    let ghost owed = (m0.kernel_base >= m0.free_ram_end || m0.kernel_base % 4096 == 0) && m0.next()
        + segments_spanned(m0.kernel_base, m0.free_ram_end) * PAGE_SIZE <= m0.free_ram_end;
    let kb = mem.kernel_base();
    let end = mem.free_ram_end();
    let mut p: u64 = kb as u64;
    while p < end as u64
        invariant
            mem.inv(),
            m0 == old(mem)@,
            ra == root as int,
            mem@.kernel_base == m0.kernel_base,
            mem@.free_ram == m0.free_ram,
            mem@.free_ram_end == m0.free_ram_end,
            kb == m0.kernel_base,
            end == m0.free_ram_end,
            owed == ((m0.kernel_base >= m0.free_ram_end || m0.kernel_base % 4096 == 0) && m0.next()
                + segments_spanned(m0.kernel_base, m0.free_ram_end) * PAGE_SIZE <= m0.free_ram_end),
            kb <= p,
            p > kb ==> p <= end + PAGE_SIZE && kb % 4096 == 0 && p % 4096 == 0 && p - PAGE_SIZE < end,
            mem@.table_wf(ra),
            forall|va: u32|
                #![trigger mem@.walk(ra, va)]
                va % 4096 == 0 && kb <= va < p ==> mem@.walk(ra, va) == Some(
                    leaf_pte(va, KERNEL_FLAGS),
                ),
            forall|f: int|
                0 <= f < m0.frames.len() && !m0.owns(ra, f) ==> #[trigger] mem@.frames[f]
                    == m0.frames[f],
            forall|i: int|
                0 <= i < PAGE_TABLE_LEN && is_valid_pte(#[trigger] mem@.entry(ra, i)) ==> mem@.entry(
                    ra,
                    i,
                ) == m0.entry(ra, i) || mem@.frame_index(pte_addr(mem@.entry(ra, i)) as int)
                    >= m0.frames.len(),
            p == kb ==> mem@.frames.len() == m0.frames.len(),
            p > kb ==> m0.frames.len() <= mem@.frames.len() <= m0.frames.len() + vpn1(
                (p - PAGE_SIZE) as u32,
            ) - vpn1(kb) + 1,
            p > kb ==> mem@.leaf_table(ra, (p - PAGE_SIZE) as u32) is Some,
            forall|v: u32|
                v % 4096 == 0 && !(kb <= v < p) ==> #[trigger] mem@.walk(ra, v) == m0.walk(ra, v),
            no_valid_entry(m0, ra) ==> forall|i: int|
                0 <= i < PAGE_TABLE_LEN && is_valid_pte(#[trigger] mem@.entry(ra, i)) ==> p > kb
                    && vpn1(kb) <= i <= vpn1((p - PAGE_SIZE) as u32),
            no_valid_entry(m0, ra) && p > kb ==> mem@.frames.len() == m0.frames.len() + vpn1(
                (p - PAGE_SIZE) as u32,
            ) - vpn1(kb) + 1,
        decreases end + PAGE_SIZE - p,
    {
        let ghost mi = mem@;
        let pa = p as u32;
        proof {
            lemma_vpn_range(pa);
            lemma_vpn1_div(kb);
            lemma_vpn1_div((end - 1) as u32);
            if p > kb {
                lemma_vpn1_steps(pa, end);
            } else {
                lemma_vpn1_div(pa);
            }
            if owed {
                assert(segments_spanned(kb as int, end as int) == vpn1((end - 1) as u32) - vpn1(kb) + 1);
                if !(mi.leaf_table(ra, pa) is Some) {
                    if p > kb {
                        assert(vpn1(pa) != vpn1((p - PAGE_SIZE) as u32));
                    }
                    lemma_ident_room(
                        m0.frames.len() as int,
                        mi.frames.len() as int,
                        m0.next(),
                        segments_spanned(kb as int, end as int),
                        kb,
                        pa,
                        end,
                    );
                }
            }
        }
        proof {
            if no_valid_entry(m0, ra) {
                if p == kb || vpn1(pa) != vpn1((p - PAGE_SIZE) as u32) {
                    assert(!is_valid_pte(mi.entry(ra, vpn1(pa))));
                }
            }
        }
        match map_page(mem, PhysAddr(root), VirtAddr(pa), PhysAddr(pa), KERNEL_FLAGS) {
            Ok(()) => {},
            Err(e) => {
                return Err(e);
            },
        }
        proof {
            let mj = mem@;
            if no_valid_entry(m0, ra) {
                assert forall|i: int|
                    0 <= i < PAGE_TABLE_LEN && is_valid_pte(#[trigger] mj.entry(ra, i)) implies vpn1(kb) <= i
                    <= vpn1(pa) by {
                    if i != vpn1(pa) {
                        assert(mj.entry(ra, i) == mi.entry(ra, i));
                    }
                }
            }
            lemma_ident_walks(mi, mj, ra, kb, pa);
            lemma_ident_others(m0, mi, mj, ra, kb, pa);
            lemma_ident_frames(m0, mi, mj, ra, pa);
            if p > kb {
                lemma_vpn1_steps(pa, end);
            }
            assert(mj.leaf_table(ra, pa) is Some);
        }
        p = p + PAGE_SIZE as u64;
    }
    proof {
        let m = mem@;
        if p > kb {
            lemma_vpn1_div((p - PAGE_SIZE) as u32);
            lemma_vpn1_div((end - 1) as u32);
            lemma_vpn1_div(kb);
            let q = (p - PAGE_SIZE) as u32;
            assert(q <= ((end - 1u32) as u32) ==> q / 0x400000 <= ((end - 1u32) as u32) / 0x400000) by (bit_vector);
        }
        assert(m.frames.len() <= m0.frames.len() + segments_spanned(kb as int, end as int));
        if no_valid_entry(m0, ra) && p > kb {
            assert(vpn1((p - PAGE_SIZE) as u32) == vpn1((end - 1) as u32)) by {
                let q = (p - PAGE_SIZE) as u32;
                assert(q < end && end <= q + 4096 && q % 4096 == 0 ==> q / 0x400000 == ((end - 1u32) as u32)
                    / 0x400000) by (bit_vector);
                assert(q & 0xfff == q % 4096) by (bit_vector);
            }
            assert(m.frames.len() == m0.frames.len() + segments_spanned(kb as int, end as int));
        }
        assert forall|v: u32|
            v % 4096 == 0 && !(kb <= v < end) implies #[trigger] m.walk(ra, v) == m0.walk(ra, v) by {
            if kb <= v < p {
                assert(false) by (nonlinear_arith)
                    requires
                        v % 4096 == 0,
                        p % 4096 == 0,
                        p - 4096 < end <= v < p,
                ;
            }
        }
        assert forall|va: u32| #[trigger] in_kernel_range(m0, va) implies m.walk(ra, va) == Some(
            leaf_pte(va, KERNEL_FLAGS),
        ) by {
            assert(m.walk(ra, va) == Some(leaf_pte(va, KERNEL_FLAGS)));
        }
    }
    Ok(())
}


/// Virtual address at which every application image is mapped.
pub const USER_BASE: u32 = 0x1000000;

/// User, read, write and execute: the rights of an application's pages.
pub const USER_FLAGS: u32 = 0x1e;

/// Page `off / PAGE_SIZE` of an application image, padded with zeros past its end.
pub open spec fn app_page(app: Seq<u8>, off: int) -> Seq<u8> {
    Seq::new(PAGE_SIZE as nat, |j: int| if off + j < app.len() { app[off + j] } else { 0u8 })
}

/// Virtual address of page `k` of the user image.
pub open spec fn user_va(k: int) -> u32 {
    (USER_BASE + k * PAGE_SIZE) as u32
}

/// In `m`, page `k` of the user image is mapped, with the user rights, onto a
/// page that holds page `k` of `app`.
pub open spec fn maps_app_page(m: MemView, root: int, app: Seq<u8>, k: int) -> bool {
    match m.walk(root, user_va(k)) {
        Some(e) => {
            &&& e == leaf_pte(pte_addr(e), USER_FLAGS)
            &&& m.in_arena(pte_addr(e) as int)
            &&& m.frame(pte_addr(e) as int) == app_page(app, k * PAGE_SIZE)
        },
        None => false,
    }
}

/// Index in the arena of the page that backs page `k` of the user image.
pub open spec fn app_frame(m: MemView, root: int, k: int) -> int {
    m.frame_index(pte_addr(m.walk(root, user_va(k))->Some_0) as int)
}

impl PhysMemory {
    /// Copies page `off / PAGE_SIZE` of `app` into the zero-filled page at `a`.
    fn fill_page(&mut self, a: u32, app: &[u8], off: usize)
        requires
            old(self).inv(),
            old(self)@.in_arena(a as int),
            old(self)@.frame(a as int) == zero_page(),
        ensures
            final(self).inv(),
            final(self)@.kernel_base == old(self)@.kernel_base,
            final(self)@.free_ram == old(self)@.free_ram,
            final(self)@.free_ram_end == old(self)@.free_ram_end,
            final(self)@.frames == old(self)@.frames.update(
                old(self)@.frame_index(a as int),
                app_page(app@, off as int),
            ),
    {
        let f = self.frame_of(a);
        let ghost before = self.frames@[f as int]@;
        assert(self@.frames[f as int] == before);
        let mut j: usize = 0;
        while j < PAGE_SIZE as usize && off < app.len() && j < app.len() - off
            invariant
                self.inv(),
                self.kernel_base == old(self).kernel_base,
                self.free_ram == old(self).free_ram,
                self.free_ram_end == old(self).free_ram_end,
                self.next == old(self).next,
                f == old(self)@.frame_index(a as int),
                0 <= f < old(self)@.frames.len(),
                j <= PAGE_SIZE,
                j == 0 || off + j <= app@.len(),
                self@.frames.len() == old(self)@.frames.len(),
                self@.frames[f as int].len() == PAGE_SIZE,
                forall|g: int|
                    0 <= g < self@.frames.len() && g != f ==> #[trigger] self@.frames[g]
                        == old(self)@.frames[g],
                forall|i: int|
                    0 <= i < PAGE_SIZE ==> #[trigger] self@.frames[f as int][i] == if i < j {
                        app@[off + i]
                    } else {
                        0u8
                    },
            decreases PAGE_SIZE - j,
        {
            let b = app[off + j];
            let ghost prev = self@.frames;
            self.frames[f].set(j, b);
            assert(self@.frames =~= prev.update(f as int, self@.frames[f as int]));
            j = j + 1;
        }
        assert forall|i: int| 0 <= i < PAGE_SIZE implies #[trigger] self@.frames[f as int][i] == app_page(
            app@,
            off as int,
        )[i] by {
            if i < j {
                assert(off + i < app@.len());
            } else {
                assert(j == PAGE_SIZE || off >= app@.len() || j >= app@.len() - off);
            }
        }
        assert(self@.frames[f as int] =~= app_page(app@, off as int));
        assert(self@.frames =~= old(self)@.frames.update(f as int, app_page(app@, off as int)));
    }
}


/// Pages `0 .. done` of the image are mapped onto distinct pages of the arena
/// from `lo` up to `hi`, none of them a table of `root`.
#[verifier::opaque]
spec fn app_progress(lo: int, m: MemView, ra: int, app: Seq<u8>, done: int, hi: int) -> bool {
    &&& forall|k: int|
        0 <= k < done ==> {
            &&& #[trigger] maps_app_page(m, ra, app, k)
            &&& !m.owns(ra, app_frame(m, ra, k))
            &&& lo <= app_frame(m, ra, k) < hi
        }
    &&& forall|k1: int, k2: int|
        0 <= k1 < k2 < done ==> #[trigger] app_frame(m, ra, k1) != #[trigger] app_frame(m, ra, k2)
}

proof fn lemma_app_after_fill(lo: int, mi: MemView, m2: MemView, ra: int, app: Seq<u8>, done: int, x: Seq<u8>)
    requires
        mi.wf(),
        m2.wf(),
        mi.table_wf(ra),
        m2.frames == mi.frames.push(x),
        m2.free_ram == mi.free_ram,
        app_progress(lo, mi, ra, app, done, mi.frames.len() as int),
    ensures
        app_progress(lo, m2, ra, app, done, mi.frames.len() as int),
{
    reveal(app_progress);
    lemma_push_frame(mi, m2, ra, x);
    assert forall|k: int| 0 <= k < done implies {
        &&& #[trigger] maps_app_page(m2, ra, app, k)
        &&& !m2.owns(ra, app_frame(m2, ra, k))
        &&& lo <= app_frame(m2, ra, k) < mi.frames.len()
    } by {
        assert(maps_app_page(mi, ra, app, k));
        assert(m2.walk(ra, user_va(k)) == mi.walk(ra, user_va(k)));
        let d = app_frame(mi, ra, k);
        assert(m2.frames[d] == mi.frames[d]);
        assert(m2.owns(ra, d) == mi.owns(ra, d));
    }
    assert forall|k1: int, k2: int| 0 <= k1 < k2 < done implies #[trigger] app_frame(m2, ra, k1)
        != #[trigger] app_frame(m2, ra, k2) by {
        assert(m2.walk(ra, user_va(k1)) == mi.walk(ra, user_va(k1)));
        assert(m2.walk(ra, user_va(k2)) == mi.walk(ra, user_va(k2)));
        assert(app_frame(m2, ra, k1) == app_frame(mi, ra, k1));
        assert(app_frame(m2, ra, k2) == app_frame(mi, ra, k2));
    }
}

/// Once the image is mapped, its pages sit on distinct fresh pages.
proof fn lemma_app_done(lo: int, m: MemView, ra: int, app: Seq<u8>, done: int)
    requires
        app_progress(lo, m, ra, app, done, m.frames.len() as int),
    ensures
        forall|k: int|
            #![trigger maps_app_page(m, ra, app, k)]
            0 <= k < done ==> maps_app_page(m, ra, app, k) && app_frame(m, ra, k) >= lo,
        forall|k1: int, k2: int|
            0 <= k1 < k2 < done ==> #[trigger] app_frame(m, ra, k1) != #[trigger] app_frame(m, ra, k2),
{
    reveal(app_progress);
    assert forall|k: int|
        #![trigger maps_app_page(m, ra, app, k)]
        0 <= k < done implies maps_app_page(m, ra, app, k) && app_frame(m, ra, k) >= lo by {
        assert(maps_app_page(m, ra, app, k));
    }
}

/// Appending a page to the arena leaves every table and translation of `root` as it was.
proof fn lemma_push_frame(mi: MemView, m2: MemView, ra: int, x: Seq<u8>)
    requires
        mi.wf(),
        m2.wf(),
        mi.table_wf(ra),
        m2.frames == mi.frames.push(x),
        m2.free_ram == mi.free_ram,
    ensures
        m2.table_wf(ra),
        forall|i: int| 0 <= i < PAGE_TABLE_LEN ==> #[trigger] m2.entry(ra, i) == mi.entry(ra, i),
        forall|v: u32| #[trigger] m2.walk(ra, v) == mi.walk(ra, v),
        forall|f: int| 0 <= f < mi.frames.len() ==> (#[trigger] m2.owns(ra, f) <==> mi.owns(ra, f)),
        !m2.owns(ra, mi.frames.len() as int),
        forall|f: int| 0 <= f < mi.frames.len() ==> #[trigger] m2.frames[f] == mi.frames[f],
{
    lemma_frame_index(mi, ra, ra);
    assert forall|f: int| 0 <= f < mi.frames.len() implies #[trigger] m2.frames[f] == mi.frames[f] by {}
    assert forall|i: int| 0 <= i < PAGE_TABLE_LEN implies #[trigger] m2.entry(ra, i) == mi.entry(ra, i) by {}
    assert forall|v: u32| #[trigger] m2.walk(ra, v) == mi.walk(ra, v) by {
        lemma_vpn_range(v);
        if is_valid_pte(mi.entry(ra, vpn1(v))) {
            let t = pte_addr(mi.entry(ra, vpn1(v))) as int;
            assert(mi.in_arena(t));
            lemma_frame_index(mi, t, ra);
            assert(m2.frame(t) == mi.frame(t));
        }
    }
    assert forall|i: int|
        0 <= i < PAGE_TABLE_LEN && is_valid_pte(#[trigger] m2.entry(ra, i)) implies m2.frame_index(
        pte_addr(m2.entry(ra, i)) as int,
    ) < mi.frames.len() by {
        assert(mi.entry(ra, i) == m2.entry(ra, i));
        lemma_frame_index(mi, pte_addr(mi.entry(ra, i)) as int, ra);
    }
    assert(m2.table_wf(ra));
    assert forall|f: int| 0 <= f < mi.frames.len() implies (#[trigger] m2.owns(ra, f) <==> mi.owns(
        ra,
        f,
    )) by {
        if m2.owns(ra, f) && f != m2.frame_index(ra) {
            let i = choose|i: int|
                0 <= i < PAGE_TABLE_LEN && is_valid_pte(#[trigger] m2.entry(ra, i)) && m2.frame_index(
                    pte_addr(m2.entry(ra, i)) as int,
                ) == f;
            assert(mi.entry(ra, i) == m2.entry(ra, i));
        }
        if mi.owns(ra, f) && f != mi.frame_index(ra) {
            let i = choose|i: int|
                0 <= i < PAGE_TABLE_LEN && is_valid_pte(#[trigger] mi.entry(ra, i)) && mi.frame_index(
                    pte_addr(mi.entry(ra, i)) as int,
                ) == f;
            assert(mi.entry(ra, i) == m2.entry(ra, i));
        }
    }
}

proof fn lemma_app_after_map(
    m0: MemView,
    m2: MemView,
    m3: MemView,
    ra: int,
    app: Seq<u8>,
    off: int,
    va: u32,
    page: u32,
    done: int,
)
    requires
        m2.wf(),
        m3.wf(),
        m0.frames.len() < m2.frames.len(),
        m2.free_ram == m0.free_ram,
        m3.free_ram == m0.free_ram,
        off == done * 4096,
        0 <= done,
        va == user_va(done),
        m2.in_arena(page as int),
        m2.frame_index(page as int) == m2.frames.len() - 1,
        m2.frame(page as int) == app_page(app, off),
        !m2.owns(ra, m2.frames.len() - 1),
        app_progress(m0.frames.len() as int, m2, ra, app, done, m2.frames.len() - 1),
        forall|i: int|
            0 <= i < PAGE_TABLE_LEN && is_valid_pte(#[trigger] m2.entry(ra, i)) ==> m2.entry(ra, i)
                == m0.entry(ra, i) || m2.frame_index(pte_addr(m2.entry(ra, i)) as int)
                >= m0.frames.len(),
        m3.table_wf(ra),
        m3.walk(ra, va) == Some(leaf_pte(page, USER_FLAGS)),
        forall|v: u32|
            vpn1(v) != vpn1(va) || vpn0(v) != vpn0(va) ==> #[trigger] m3.walk(ra, v) == m2.walk(ra, v),
        forall|f: int|
            0 <= f < m2.frames.len() && !m2.owns(ra, f) ==> #[trigger] m3.frames[f] == m2.frames[f],
        forall|i: int|
            0 <= i < PAGE_TABLE_LEN && (i != vpn1(va) || is_valid_pte(m2.entry(ra, i)))
                ==> #[trigger] m3.entry(ra, i) == m2.entry(ra, i),
        m3.leaf_table(ra, va) == Some(
            match m2.leaf_table(ra, va) {
                Some(t) => t,
                None => m2.next(),
            },
        ),
        m3.frames.len() >= m2.frames.len(),
        page % 4096 == 0,
        0 <= off <= u32::MAX - USER_BASE,
    ensures
        app_progress(m0.frames.len() as int, m3, ra, app, done + 1, m3.frames.len() as int),
        forall|i: int|
            0 <= i < PAGE_TABLE_LEN && is_valid_pte(#[trigger] m3.entry(ra, i)) ==> m3.entry(ra, i)
                == m0.entry(ra, i) || m3.frame_index(pte_addr(m3.entry(ra, i)) as int)
                >= m0.frames.len(),
{
    reveal(app_progress);
    lemma_leaf_pte(page, USER_FLAGS);
    // A page that `m2`'s tables do not own is not owned after the mapping either,
    // unless it is the fresh leaf table.
    assert forall|d: int| 0 <= d < m2.frames.len() && !m2.owns(ra, d) implies !m3.owns(ra, d) by {
        if m3.owns(ra, d) {
            lemma_frame_index(m2, ra, ra);
            if d != m3.frame_index(ra) {
                let i = choose|i: int|
                    0 <= i < PAGE_TABLE_LEN && is_valid_pte(#[trigger] m3.entry(ra, i))
                        && m3.frame_index(pte_addr(m3.entry(ra, i)) as int) == d;
                if i == vpn1(va) && !is_valid_pte(m2.entry(ra, i)) {
                    assert(pte_addr(m3.entry(ra, i)) == m2.next());
                    assert(m3.frame_index(m2.next()) == m2.frames.len());
                } else {
                    assert(m3.entry(ra, i) == m2.entry(ra, i));
                    assert(m2.owns(ra, d));
                }
            }
        }
    }
    assert forall|k: int|
        0 <= k < done + 1 implies {
        &&& #[trigger] maps_app_page(m3, ra, app, k)
        &&& !m3.owns(ra, app_frame(m3, ra, k))
        &&& m0.frames.len() <= app_frame(m3, ra, k) < m3.frames.len()
        &&& app_frame(m3, ra, k) == if k < done {
            app_frame(m2, ra, k)
        } else {
            m2.frames.len() - 1
        }
    } by {
        if k < done {
            assert(maps_app_page(m2, ra, app, k));
            assert(user_va(k) % 4096 == 0 && va % 4096 == 0 && user_va(k) != va) by (nonlinear_arith)
                requires
                    va == user_va(done),
                    off == done * 4096,
                    0 <= k < done,
                    0 <= off <= u32::MAX - USER_BASE,
                    user_va(k) == (USER_BASE + k * 4096) as u32,
                    user_va(done) == (USER_BASE + done * 4096) as u32,
            ;
            lemma_vpn_distinct(user_va(k), va);
            assert(m3.walk(ra, user_va(k)) == m2.walk(ra, user_va(k)));
            let d = app_frame(m2, ra, k);
            assert(app_frame(m3, ra, k) == d);
            assert(m3.frames[d] == m2.frames[d]);
        } else {
            assert(k == done);
            let d = m2.frames.len() - 1;
            assert(user_va(k) == va);
            assert(pte_addr(leaf_pte(page, USER_FLAGS)) == page);
            assert(app_frame(m3, ra, k) == d);
            assert(m3.frames[d] == m2.frames[d]);
            assert(k * 4096 == off);
            assert(m3.frame(page as int) == app_page(app, k * PAGE_SIZE));
            assert(maps_app_page(m3, ra, app, k));
        }
    }
    assert forall|k1: int, k2: int| 0 <= k1 < k2 < done + 1 implies #[trigger] app_frame(m3, ra, k1)
        != #[trigger] app_frame(m3, ra, k2) by {
        assert(maps_app_page(m3, ra, app, k1));
        assert(maps_app_page(m3, ra, app, k2));
        assert(maps_app_page(m2, ra, app, k1));
    }
    assert forall|i: int|
        0 <= i < PAGE_TABLE_LEN && is_valid_pte(#[trigger] m3.entry(ra, i)) implies m3.entry(ra, i)
        == m0.entry(ra, i) || m3.frame_index(pte_addr(m3.entry(ra, i)) as int) >= m0.frames.len() by {
        if i == vpn1(va) && !is_valid_pte(m2.entry(ra, i)) {
            assert(pte_addr(m3.entry(ra, i)) == m2.next());
            assert(m3.frame_index(m2.next()) == m2.frames.len());
        } else {
            assert(m3.entry(ra, i) == m2.entry(ra, i));
        }
    }
}


/// Number of pages an image of `len` bytes takes.
pub open spec fn app_pages(len: int) -> int {
    (len + PAGE_SIZE - 1) / PAGE_SIZE as int
}

/// Pages of the arena an image copy may have taken once the first `off`
/// bytes are mapped: one per image page, and one leaf table per 4 MiB
/// segment reached.
pub open spec fn app_pages_used(off: int) -> int {
    if off == 0 {
        0
    } else {
        off / PAGE_SIZE as int + vpn1((USER_BASE + off - PAGE_SIZE) as u32) - vpn1(USER_BASE) + 1
    }
}

proof fn lemma_app_room(used: int, off: int, len: int, new_segment: bool)
    requires
        0 <= off < len <= u32::MAX - USER_BASE,
        off % 4096 == 0,
        used <= app_pages_used(off),
        off > 0 && !new_segment ==> vpn1((USER_BASE + off) as u32) == vpn1(
            (USER_BASE + off - PAGE_SIZE) as u32,
        ),
        off > 0 && new_segment ==> vpn1((USER_BASE + off) as u32) != vpn1(
            (USER_BASE + off - PAGE_SIZE) as u32,
        ),
        off == 0 ==> new_segment,
    ensures
        used + 1 <= app_pages(len) + segments_spanned(USER_BASE as int, USER_BASE + len),
        new_segment ==> used + 2 <= app_pages(len) + segments_spanned(USER_BASE as int, USER_BASE + len),
        used + 1 + (if new_segment {
            1int
        } else {
            0
        }) <= app_pages_used(off + PAGE_SIZE),
{
    let va = (USER_BASE + off) as u32;
    let last = (USER_BASE + len - 1) as u32;
    lemma_vpn1_div(USER_BASE);
    lemma_vpn1_div(va);
    lemma_vpn1_div(last);
    assert(USER_BASE / 0x400000 <= va / 0x400000 <= last / 0x400000) by (nonlinear_arith)
        requires
            USER_BASE <= va <= last,
    ;
    if off > 0 {
        lemma_vpn1_steps(va, (USER_BASE + len) as u32);
    }
    assert(off / 4096 + 1 <= app_pages(len)) by (nonlinear_arith)
        requires
            off % 4096 == 0,
            off < len,
            app_pages(len) == (len + 4095) / 4096,
    ;
    assert((off + 4096) / 4096 == off / 4096 + 1);
}

proof fn lemma_app_used_total(off: int, len: int, done: int)
    requires
        0 <= len <= u32::MAX - USER_BASE,
        off == done * 4096,
        0 <= done,
        len <= off < len + 4096,
    ensures
        app_pages_used(off) <= app_pages(len) + segments_spanned(USER_BASE as int, USER_BASE + len),
        done == app_pages(len),
{
    assert(done == app_pages(len)) by (nonlinear_arith)
        requires
            off == done * 4096,
            len <= off < len + 4096,
            app_pages(len) == (len + 4095) / 4096,
    ;
    if off > 0 {
        let q = (USER_BASE + off - PAGE_SIZE) as u32;
        let e = (USER_BASE + len - 1) as u32;
        lemma_vpn1_div(q);
        lemma_vpn1_div(e);
        lemma_vpn1_div(USER_BASE);
        assert(q <= e ==> q / 0x400000 <= e / 0x400000) by (bit_vector);
        assert(off / 4096 == done);
    }
}

proof fn lemma_app_prev_leaf(
    lo: int,
    hi: int,
    mi: MemView,
    ra: int,
    app: Seq<u8>,
    off: int,
    new_segment: bool,
    done: int,
)
    requires
        0 <= off <= u32::MAX - USER_BASE,
        off == done * 4096,
        new_segment == (off == 0 || vpn1((USER_BASE + off) as u32) != vpn1(
            (USER_BASE + off - PAGE_SIZE) as u32,
        )),
        app_progress(lo, mi, ra, app, done, hi),
    ensures
        !new_segment ==> mi.leaf_table(ra, (USER_BASE + off) as u32) is Some,
{
    reveal(app_progress);
    if !new_segment {
        let k = done - 1;
        assert(maps_app_page(mi, ra, app, k));
        assert(user_va(k) == (USER_BASE + off - PAGE_SIZE) as u32);
    }
}

/// Copies an application image, page by page, into fresh pages and maps page
/// `k` of it at `USER_BASE + k * PAGE_SIZE` with the user rights in the tables
/// rooted at `root`. The last page is padded with zeros. Fails only with
/// `OutOfMemory`.
pub fn map_one_app(mem: &mut PhysMemory, root: u32, app: &[u8]) -> (r: Result<(), KernelError>)
    requires
        old(mem).inv(),
        old(mem)@.table_wf(root as int),
        app@.len() <= u32::MAX - USER_BASE,
    ensures
        final(mem).inv(),
        final(mem)@.kernel_base == old(mem)@.kernel_base,
        final(mem)@.free_ram == old(mem)@.free_ram,
        final(mem)@.free_ram_end == old(mem)@.free_ram_end,
        r is Err ==> r == Err::<(), KernelError>(KernelError::OutOfMemory),
        old(mem)@.next() + (app_pages(app@.len() as int) + segments_spanned(
            USER_BASE as int,
            USER_BASE + app@.len(),
        )) * PAGE_SIZE <= old(mem)@.free_ram_end ==> r is Ok,
        r is Ok ==> {
            &&& final(mem)@.table_wf(root as int)
            &&& forall|k: int|
                #![trigger maps_app_page(final(mem)@, root as int, app@, k)]
                0 <= k < app_pages(app@.len() as int) ==> maps_app_page(final(mem)@, root as int, app@, k)
                    && app_frame(final(mem)@, root as int, k) >= old(mem)@.frames.len()
            &&& forall|k1: int, k2: int|
                0 <= k1 < k2 < app_pages(app@.len() as int) ==> #[trigger] app_frame(
                    final(mem)@,
                    root as int,
                    k1,
                ) != #[trigger] app_frame(final(mem)@, root as int, k2)
            &&& final(mem)@.next() <= old(mem)@.next() + (app_pages(app@.len() as int) + segments_spanned(
                USER_BASE as int,
                USER_BASE + app@.len(),
            )) * PAGE_SIZE
            &&& forall|v: u32|
                v % 4096 == 0 && !(USER_BASE <= v < USER_BASE + app@.len())
                    ==> #[trigger] final(mem)@.walk(root as int, v) == old(mem)@.walk(root as int, v)
            &&& forall|f: int|
                0 <= f < old(mem)@.frames.len() && !old(mem)@.owns(root as int, f)
                    ==> #[trigger] final(mem)@.frames[f] == old(mem)@.frames[f]
            &&& forall|i: int|
                0 <= i < PAGE_TABLE_LEN && is_valid_pte(#[trigger] final(mem)@.entry(root as int, i))
                    ==> final(mem)@.entry(root as int, i) == old(mem)@.entry(root as int, i)
                    || final(mem)@.frame_index(pte_addr(final(mem)@.entry(root as int, i)) as int)
                    >= old(mem)@.frames.len()
        },
{
    let ghost m0 = mem@;
    let ghost ra = root as int;
    let ghost owed = m0.next() + (app_pages(app@.len() as int) + segments_spanned(
        USER_BASE as int,
        USER_BASE + app@.len(),
    )) * PAGE_SIZE <= m0.free_ram_end;
    let mut off: u64 = 0;
    let ghost mut done: int = 0;
    proof {
        reveal(app_progress);
    }
    while off < app.len() as u64
        invariant
            mem.inv(),
            m0 == old(mem)@,
            ra == root as int,
            app@.len() <= u32::MAX - USER_BASE,
            mem@.kernel_base == m0.kernel_base,
            mem@.free_ram == m0.free_ram,
            mem@.free_ram_end == m0.free_ram_end,
            off % 4096 == 0,
            off == done * 4096,
            0 <= done,
            off < app@.len() + PAGE_SIZE,
            off > 0 ==> off <= app@.len() + PAGE_SIZE - 1,
            mem@.table_wf(ra),
            mem@.frames.len() - m0.frames.len() <= app_pages_used(off as int),
            owed == (m0.next() + (app_pages(app@.len() as int) + segments_spanned(
                USER_BASE as int,
                USER_BASE + app@.len(),
            )) * PAGE_SIZE <= m0.free_ram_end),
            m0.frames.len() <= mem@.frames.len(),
            app_progress(m0.frames.len() as int, mem@, ra, app@, done, mem@.frames.len() as int),
            forall|v: u32|
                v % 4096 == 0 && !(USER_BASE <= v < USER_BASE + off) ==> #[trigger] mem@.walk(ra, v)
                    == m0.walk(ra, v),
            forall|f: int|
                0 <= f < m0.frames.len() && !m0.owns(ra, f) ==> #[trigger] mem@.frames[f]
                    == m0.frames[f],
            forall|i: int|
                0 <= i < PAGE_TABLE_LEN && is_valid_pte(#[trigger] mem@.entry(ra, i)) ==> mem@.entry(
                    ra,
                    i,
                ) == m0.entry(ra, i) || mem@.frame_index(pte_addr(mem@.entry(ra, i)) as int)
                    >= m0.frames.len(),
        decreases app@.len() + PAGE_SIZE - off,
    {
        let ghost mi = mem@;
        let ghost va_g = (USER_BASE + off) as u32;
        let ghost new_segment = off == 0 || vpn1(va_g) != vpn1((USER_BASE + off - PAGE_SIZE) as u32);
        proof {
            lemma_app_room(mi.frames.len() - m0.frames.len(), off as int, app@.len() as int, new_segment);
            lemma_app_prev_leaf(
                m0.frames.len() as int,
                mi.frames.len() as int,
                mi,
                ra,
                app@,
                off as int,
                new_segment,
                done,
            );
        }
        let page = match alloc_pages(mem, 1) {
            Ok(p) => p,
            Err(e) => {
                return Err(e);
            },
        };
        proof {
            assert(mem@.frames =~= mi.frames.push(zero_page()));
            assert(mem@.frame_index(page.0 as int) == mi.frames.len()) by (nonlinear_arith)
                requires
                    page.0 == mi.free_ram + mi.frames.len() * 4096,
                    mem@.frame_index(page.0 as int) == (page.0 - mem@.free_ram) / 4096,
                    mem@.free_ram == mi.free_ram,
            ;
        }
        mem.fill_page(page.0, app, off as usize);
        let ghost m2 = mem@;
        proof {
            assert(m2.frames =~= mi.frames.push(app_page(app@, off as int)));
            lemma_push_frame(mi, m2, ra, app_page(app@, off as int));
            assert forall|f: int| 0 <= f < m0.frames.len() && !m0.owns(ra, f) implies #[trigger] m2.frames[f]
                == m0.frames[f] by {
                assert(m2.frames[f] == mi.frames[f]);
            }
            lemma_app_after_fill(
                m0.frames.len() as int,
                mi,
                m2,
                ra,
                app@,
                done,
                app_page(app@, off as int),
            );
            assert(page.0 % 4096 == 0);
        }
        let va = USER_BASE + off as u32;
        proof {
            assert(va == va_g);
            if !new_segment {
                assert(mi.entry(ra, vpn1(va)) == m2.entry(ra, vpn1(va)));
                assert(m2.leaf_table(ra, va) is Some);
            }
        }
        match map_page(mem, PhysAddr(root), VirtAddr(va), page, USER_FLAGS) {
            Ok(()) => {},
            Err(e) => {
                return Err(e);
            },
        }
        proof {
            let m3 = mem@;
            assert(va == user_va(done));
            lemma_app_after_map(m0, m2, m3, ra, app@, off as int, va, page.0, done);
            assert forall|f: int| 0 <= f < m0.frames.len() && !m0.owns(ra, f) implies #[trigger] m3.frames[f]
                == m0.frames[f] by {
                if m2.owns(ra, f) && f != m2.frame_index(ra) {
                    let i = choose|i: int|
                        0 <= i < PAGE_TABLE_LEN && is_valid_pte(#[trigger] m2.entry(ra, i))
                            && m2.frame_index(pte_addr(m2.entry(ra, i)) as int) == f;
                    assert(m2.entry(ra, i) == m0.entry(ra, i));
                    assert(m0.owns(ra, f));
                }
            }
            assert forall|v: u32|
                v % 4096 == 0 && !(USER_BASE <= v < USER_BASE + off + PAGE_SIZE) implies #[trigger] m3.walk(
                ra,
                v,
            ) == m0.walk(ra, v) by {
                lemma_vpn_distinct(v, va);
            }
        }
        off = off + PAGE_SIZE as u64;
        proof {
            done = done + 1;
        }
    }
    proof {
        let m = mem@;
        assert(m.table_wf(ra));
        assert(done == app_pages(app@.len() as int)) by (nonlinear_arith)
            requires
                off == done * 4096,
                app@.len() <= off < app@.len() + 4096,
                app_pages(app@.len() as int) == (app@.len() + 4095) / 4096,
        ;
        lemma_app_done(m0.frames.len() as int, m, ra, app@, done);
        lemma_app_used_total(off as int, app@.len() as int, done);
        assert forall|f: int| 0 <= f < m0.frames.len() && !m0.owns(ra, f) implies #[trigger] m.frames[f]
            == m0.frames[f] by {}
        assert forall|i: int|
            0 <= i < PAGE_TABLE_LEN && is_valid_pte(#[trigger] m.entry(ra, i)) implies m.entry(ra, i)
            == m0.entry(ra, i) || m.frame_index(pte_addr(m.entry(ra, i)) as int) >= m0.frames.len() by {}
        assert forall|v: u32|
            v % 4096 == 0 && !(USER_BASE <= v < USER_BASE + app@.len()) implies #[trigger] m.walk(ra, v)
            == m0.walk(ra, v) by {
            if USER_BASE <= v < USER_BASE + off {
                assert(false) by (nonlinear_arith)
                    requires
                        v % 4096 == 0,
                        USER_BASE % 4096 == 0,
                        off % 4096 == 0,
                        USER_BASE + app@.len() <= v < USER_BASE + off,
                        off < app@.len() + 4096,
                ;
            }
        }
    }
    Ok(())
}


/// A zero-filled page in the arena is a page-table root with no valid entry.
pub proof fn lemma_zero_root(m: MemView, root: int)
    requires
        m.wf(),
        m.in_arena(root),
        m.frame(root) == zero_page(),
    ensures
        m.table_wf(root),
        forall|i: int| 0 <= i < PAGE_TABLE_LEN ==> #[trigger] m.entry(root, i) == 0,
        forall|f: int| #[trigger] m.owns(root, f) ==> f == m.frame_index(root),
        no_valid_entry(m, root),
{
    assert forall|i: int| 0 <= i < PAGE_TABLE_LEN implies #[trigger] m.entry(root, i) == 0 by {
        lemma_zero_word(m.frame(root), i);
    }
    assert(!is_valid_pte(0u32)) by (bit_vector);
}

/// Allocates a fresh root table and identity-maps the kernel into it.
pub fn new_address_space(mem: &mut PhysMemory) -> (r: Result<u32, KernelError>)
    requires
        old(mem).inv(),
    ensures
        final(mem).inv(),
        final(mem)@.kernel_base == old(mem)@.kernel_base,
        final(mem)@.free_ram == old(mem)@.free_ram,
        final(mem)@.free_ram_end == old(mem)@.free_ram_end,
        r matches Ok(root) ==> {
            &&& root == old(mem)@.next()
            &&& final(mem)@.table_wf(root as int)
            &&& forall|va: u32| #[trigger]
                in_kernel_range(old(mem)@, va) ==> final(mem)@.walk(root as int, va) == Some(
                    leaf_pte(va, KERNEL_FLAGS),
                )
            &&& forall|f: int|
                0 <= f < old(mem)@.frames.len() ==> #[trigger] final(mem)@.frames[f]
                    == old(mem)@.frames[f]
            &&& forall|f: int| #[trigger]
                final(mem)@.owns(root as int, f) ==> f >= old(mem)@.frames.len()
        },
        r is Err ==> r == Err::<u32, KernelError>(KernelError::OutOfMemory) || r == Err::<
            u32,
            KernelError,
        >(KernelError::Unaligned),
        r == Err::<u32, KernelError>(KernelError::Unaligned) ==> old(mem)@.kernel_base % 4096 != 0,
        (old(mem)@.kernel_base >= old(mem)@.free_ram_end || old(mem)@.kernel_base % 4096 == 0)
            && old(mem)@.next() + (1 + segments_spanned(old(mem)@.kernel_base, old(mem)@.free_ram_end))
            * PAGE_SIZE <= old(mem)@.free_ram_end ==> r is Ok,
        r is Ok ==> final(mem)@.next() <= old(mem)@.next() + (1 + segments_spanned(
            old(mem)@.kernel_base,
            old(mem)@.free_ram_end,
        )) * PAGE_SIZE,
        r is Ok ==> old(mem)@.next() + (1 + segments_spanned(
            old(mem)@.kernel_base,
            old(mem)@.free_ram_end,
        )) * PAGE_SIZE <= old(mem)@.free_ram_end,
        old(mem)@.kernel_base < old(mem)@.free_ram_end && old(mem)@.kernel_base % 4096 != 0
            && old(mem)@.next() + PAGE_SIZE <= old(mem)@.free_ram_end ==> r == Err::<u32, KernelError>(
            KernelError::Unaligned,
        ),
{
    let ghost m0 = mem@;
    let root = match alloc_pages(mem, 1) {
        Ok(a) => a.0,
        Err(e) => {
            return Err(e);
        },
    };
    let ghost m1 = mem@;
    proof {
        assert(m1.frames =~= m0.frames.push(zero_page()));
        assert(m1.frame_index(root as int) == m0.frames.len()) by (nonlinear_arith)
            requires
                root == m0.free_ram + m0.frames.len() * 4096,
                m1.frame_index(root as int) == (root - m1.free_ram) / 4096,
                m1.free_ram == m0.free_ram,
        ;
        lemma_zero_root(m1, root as int);
        assert(no_valid_entry(m1, root as int));
    }
    match ident_map_in_kernel(mem, root) {
        Ok(()) => {},
        Err(e) => {
            return Err(e);
        },
    }
    proof {
        let m2 = mem@;
        assert forall|va: u32| #[trigger] in_kernel_range(m0, va) implies m2.walk(root as int, va) == Some(
            leaf_pte(va, KERNEL_FLAGS),
        ) by {
            assert(in_kernel_range(m1, va));
        }
        assert forall|f: int| 0 <= f < m0.frames.len() implies #[trigger] m2.frames[f] == m0.frames[f] by {
            assert(m1.frames[f] == m0.frames[f]);
            assert(!m1.owns(root as int, f));
        }
        assert forall|f: int| #[trigger] m2.owns(root as int, f) implies f >= m0.frames.len() by {
            if f != m2.frame_index(root as int) {
                let i = choose|i: int|
                    0 <= i < PAGE_TABLE_LEN && is_valid_pte(#[trigger] m2.entry(root as int, i))
                        && m2.frame_index(pte_addr(m2.entry(root as int, i)) as int) == f;
                assert(m1.entry(root as int, i) == 0);
                assert(!is_valid_pte(0u32)) by (bit_vector);
            }
        }
    }
    Ok(root)
}


/// Most application images the embedding table is read for.
pub const MAX_APP_NUM: usize = 16;

/// Number of applications the table `t` lists, capped at `MAX_APP_NUM`.
pub open spec fn app_count(t: Seq<u32>) -> int {
    if t[0] as int > MAX_APP_NUM as int {
        MAX_APP_NUM as int
    } else {
        t[0] as int
    }
}

/// Reads the build-time table of embedded applications: a count word, then
/// the boundaries of the images as consecutive words, image `i` spanning
/// from word `1 + i` to word `2 + i`. Returns `(start, end)` of each image,
/// at most `MAX_APP_NUM` of them, or `None` when the table is shorter than
/// its count says.
pub fn get_user_app_list(table: &[u32]) -> (r: Option<Vec<(u32, u32)>>)
    ensures
        r is None <==> (table@.len() == 0 || (app_count(table@) > 0 && table@.len() < app_count(table@)
            + 2)),
        r matches Some(v) ==> {
            &&& v@.len() == app_count(table@)
            &&& forall|i: int|
                0 <= i < v@.len() ==> #[trigger] v@[i] == (table@[1 + i], table@[2 + i])
        },
{
    if table.len() == 0 {
        return None;
    }
    let count = if table[0] as usize > MAX_APP_NUM {
        MAX_APP_NUM
    } else {
        table[0] as usize
    };
    if count > 0 && table.len() < count + 2 {
        return None;
    }
    let mut apps: Vec<(u32, u32)> = Vec::new();
    let mut i: usize = 0;
    while i < count
        invariant
            count == app_count(table@),
            count > 0 ==> table@.len() >= count + 2,
            i <= count,
            apps@.len() == i,
            forall|k: int| 0 <= k < i ==> #[trigger] apps@[k] == (table@[1 + k], table@[2 + k]),
        decreases count - i,
    {
        apps.push((table[1 + i], table[2 + i]));
        i = i + 1;
    }
    Some(apps)
}

/// The hardware's two-level table walk: the valid leaf entry that translates
/// `va` through the tables rooted at `root`, if any.
pub fn translate(mem: &PhysMemory, root: u32, va: u32) -> (r: Option<u32>)
    requires
        mem.inv(),
        mem@.in_arena(root as int),
    ensures
        r == mem@.walk(root as int, va),
{
    proof {
        lemma_vpn_range(va);
    }
    let e1 = mem.read_entry(root, ((va >> 22) & 0x3ff) as usize);
    if e1 & PAGE_V == 0 {
        return None;
    }
    let t = (e1 >> 10) << 12;
    if !mem.is_page(t) {
        return None;
    }
    let e0 = mem.read_entry(t, ((va >> 12) & 0x3ff) as usize);
    if e0 & PAGE_V == 0 {
        None
    } else {
        Some(e0)
    }
}

impl PhysMemory {
    /// Whether `a` is the first address of a page handed out so far.
    pub fn is_page(&self, a: u32) -> (r: bool)
        requires
            self.inv(),
        ensures
            r == self@.in_arena(a as int),
    {
        a >= self.free_ram && a < self.next && a % PAGE_SIZE == 0
    }
}


/// Total of the first `k` page counts of `ns`.
pub open spec fn pages_before(ns: Seq<nat>, k: int) -> nat
    decreases k,
{
    if k <= 0 {
        0
    } else {
        pages_before(ns, k - 1) + ns[k - 1]
    }
}

/// The memory before call `k` of a run of allocations of `ns[0]`, `ns[1]`,
/// ... pages, all of which succeed.
pub open spec fn alloc_run(m: MemView, ns: Seq<nat>, k: int) -> MemView
    decreases k,
{
    if k <= 0 {
        m
    } else {
        alloc_run(m, ns, k - 1).after_alloc(ns[k - 1])
    }
}

proof fn lemma_alloc_run_next(m: MemView, ns: Seq<nat>, k: int)
    requires
        0 <= k <= ns.len(),
    ensures
        alloc_run(m, ns, k).next() == m.next() + pages_before(ns, k) * PAGE_SIZE,
        alloc_run(m, ns, k).free_ram_end == m.free_ram_end,
    decreases k,
{
    if k > 0 {
        lemma_alloc_run_next(m, ns, k - 1);
    }
}

proof fn lemma_pages_before_mono(ns: Seq<nat>, i: int, j: int)
    requires
        0 <= i <= j <= ns.len(),
    ensures
        pages_before(ns, i) <= pages_before(ns, j),
        i < j ==> pages_before(ns, i) + ns[i] <= pages_before(ns, j),
    decreases j - i,
{
    if i < j {
        lemma_pages_before_mono(ns, i, j - 1);
    }
}

/// Allocator monotonicity: in a run of allocations that fits in the region,
/// every call succeeds, and the page ranges returned are pairwise disjoint
/// and in increasing order; a call for at least one page starts strictly
/// above every earlier one.
pub proof fn lemma_alloc_monotonic(m: MemView, ns: Seq<nat>, i: int, j: int)
    requires
        m.wf(),
        m.next() + pages_before(ns, ns.len() as int) * PAGE_SIZE <= m.free_ram_end,
        0 <= i < j < ns.len(),
    ensures
        alloc_run(m, ns, i).next() + ns[i] * PAGE_SIZE <= alloc_run(m, ns, i).free_ram_end,
        alloc_run(m, ns, j).next() + ns[j] * PAGE_SIZE <= alloc_run(m, ns, j).free_ram_end,
        alloc_run(m, ns, i).next() + ns[i] * PAGE_SIZE <= alloc_run(m, ns, j).next(),
        ns[i] > 0 ==> alloc_run(m, ns, i).next() < alloc_run(m, ns, j).next(),
{
    lemma_alloc_run_next(m, ns, i);
    lemma_alloc_run_next(m, ns, j);
    lemma_pages_before_mono(ns, i, j);
    lemma_pages_before_mono(ns, j, ns.len() as int);
    lemma_pages_before_mono(ns, i + 1, ns.len() as int);
    assert(pages_before(ns, j + 1) == pages_before(ns, j) + ns[j]);
    assert(pages_before(ns, i + 1) == pages_before(ns, i) + ns[i]);
    assert(pages_before(ns, j + 1) <= pages_before(ns, ns.len() as int)) by {
        lemma_pages_before_mono(ns, j + 1, ns.len() as int);
    }
}

/// Mapping correctness: once `vaddr` maps onto a page-aligned `paddr` with
/// flags in bits 0..9, the walk for `vaddr` yields a valid leaf whose page
/// number is that of `paddr` and whose flag bits are exactly those flags
/// with Valid.
pub proof fn lemma_map_then_walk(m: MemView, root: int, vaddr: u32, paddr: u32, flags: u32)
    requires
        m.walk(root, vaddr) == Some(leaf_pte(paddr, flags)),
        paddr % 4096 == 0,
        flags < 1024,
    ensures
        m.walk(root, vaddr) matches Some(e) && is_valid_pte(e) && pte_addr(e) == paddr && e >> 10u32
            == paddr / 4096 && e & 0x3ff == flags | PAGE_V,
{
    lemma_leaf_pte(paddr, flags);
    let e = leaf_pte(paddr, flags);
    assert(paddr & 0xfff == paddr % 4096) by (bit_vector);
    assert(paddr & 0xfff == 0 && flags < 1024 ==> ((((paddr >> 12u32) << 10u32) | flags | 1u32) >> 10u32)
        == paddr / 4096) by (bit_vector);
}


impl PhysMemory {
    /// The bytes of the handed-out page that starts at `a`.
    pub fn page_bytes(&self, a: u32) -> (r: &Vec<u8>)
        requires
            self.inv(),
            self@.in_arena(a as int),
        ensures
            r@ == self@.frame(a as int),
    {
        let f = self.frame_of(a);
        &self.frames[f]
    }
}

} // verus!
