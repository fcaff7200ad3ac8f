//! Single-level page table: a virtual address is split into a virtual page
//! number (bits 31..12) and a page offset (bits 11..0); the page number
//! indexes a table of optional entries, and the physical address is
//! `ppn * PAGE_SIZE + offset`.

use vstd::prelude::*;

verus! {

/// Page size (4 KiB).
pub const PAGE_SIZE: usize = 4096;

/// Number of bits of the in-page offset.
pub const PAGE_OFFSET_BITS: u32 = 12;

/// The entry holds a valid mapping.
pub const PTE_VALID: u8 = 1 << 0;

/// The page may be read.
pub const PTE_READ: u8 = 1 << 1;

/// The page may be written.
pub const PTE_WRITE: u8 = 1 << 2;

/// A page table entry: the physical page number and its flag bits.
#[derive(Clone, Copy, Debug)]
pub struct PageTableEntry {
    pub ppn: u32,
    pub flags: u8,
}

/// Outcome of translating a virtual address.
#[derive(Debug, PartialEq, Eq, Structural)]
pub enum TranslateResult {
    /// The translated physical address.
    Translated(u32),
    /// The virtual page is not mapped, or its entry is not valid.
    PageFault,
    /// A write was attempted on a page without write permission.
    PermissionDenied,
}

/// Page number of a virtual address.
pub open spec fn vpn_of(va: u32) -> nat {
    (va / 4096) as nat
}

/// In-page offset of a virtual address.
pub open spec fn offset_of(va: u32) -> u32 {
    va % 4096
}

/// Physical address of byte `offset` of physical page `ppn`.
pub open spec fn pa_of(ppn: u32, offset: u32) -> int {
    ppn * 4096 + offset
}

/// Whether an entry lets an access of the given kind go through.
pub open spec fn entry_permits(e: PageTableEntry, is_write: bool) -> bool {
    e.flags & PTE_VALID != 0 && (!is_write || e.flags & PTE_WRITE != 0)
}

/// What translating `va` in a table with contents `entries` yields.
pub open spec fn translation(
    entries: Seq<Option<PageTableEntry>>,
    va: u32,
    is_write: bool,
) -> TranslateResult {
    let vpn = vpn_of(va);
    if vpn >= entries.len() {
        TranslateResult::PageFault
    } else {
        match entries[vpn as int] {
            None => TranslateResult::PageFault,
            Some(e) => if e.flags & PTE_VALID == 0 {
                TranslateResult::PageFault
            } else if is_write && e.flags & PTE_WRITE == 0 {
                TranslateResult::PermissionDenied
            } else {
                TranslateResult::Translated(pa_of(e.ppn, offset_of(va)) as u32)
            },
        }
    }
}

/// Whether the physical address that translating `va` would compute fits in
/// 32 bits (it always does where the translation does not succeed).
pub open spec fn translation_fits(
    entries: Seq<Option<PageTableEntry>>,
    va: u32,
    is_write: bool,
) -> bool {
    let vpn = vpn_of(va);
    vpn < entries.len() ==> match entries[vpn as int] {
        None => true,
        Some(e) => entry_permits(e, is_write) ==> pa_of(e.ppn, offset_of(va)) <= u32::MAX,
    }
}

/// A single-level page table with a fixed number of virtual pages.
pub struct SingleLevelPageTable {
    entries: Vec<Option<PageTableEntry>>,
}

impl View for SingleLevelPageTable {
    type V = Seq<Option<PageTableEntry>>;

    /// The entry of each virtual page, indexed by page number.
    closed spec fn view(&self) -> Seq<Option<PageTableEntry>> {
        self.entries@
    }
}

impl SingleLevelPageTable {
    /// Creates an empty table covering `max_pages` virtual pages.
    pub fn new(max_pages: usize) -> (pt: Self)
        ensures
            pt@ == Seq::new(max_pages as nat, |i: int| None::<PageTableEntry>),
    {
        let entries: Vec<Option<PageTableEntry>> = vec![None; max_pages];
        let pt = Self { entries };
        assert(pt@ =~= Seq::new(max_pages as nat, |i: int| None::<PageTableEntry>));
        pt
    }

    /// Maps virtual page `vpn` to physical page `ppn` with flags `flags`.
    pub fn map(&mut self, vpn: usize, ppn: u32, flags: u8)
        requires
            vpn < old(self)@.len(),
        ensures
            final(self)@ == old(self)@.update(vpn as int, Some(PageTableEntry { ppn, flags })),
    {
        self.entries.set(vpn, Some(PageTableEntry { ppn, flags }));
    }

    /// Removes the mapping of virtual page `vpn`.
    pub fn unmap(&mut self, vpn: usize)
        requires
            vpn < old(self)@.len(),
        ensures
            final(self)@ == old(self)@.update(vpn as int, None),
    {
        self.entries.set(vpn, None);
    }

    /// The entry of virtual page `vpn`, if the page is in range and mapped.
    pub fn lookup(&self, vpn: usize) -> (r: Option<&PageTableEntry>)
        ensures
            match r {
                Some(e) => vpn < self@.len() && self@[vpn as int] == Some(*e),
                None => vpn >= self@.len() || self@[vpn as int] is None,
            },
    {
        if vpn >= self.entries.len() {
            return None;
        }
        self.entries[vpn].as_ref()
    }

    /// Translates virtual address `va` for a read (`is_write == false`) or a
    /// write access.
    pub fn translate(&self, va: u32, is_write: bool) -> (r: TranslateResult)
        requires
            translation_fits(self@, va, is_write),
        ensures
            r == translation(self@, va, is_write),
    {
        let vpn = va_to_vpn(va);
        let offset = va_to_offset(va);
        let pte = match self.lookup(vpn) {
            Some(entry) => entry,
            None => return TranslateResult::PageFault,
        };
        if (pte.flags & PTE_VALID) == 0 {
            return TranslateResult::PageFault;
        }
        if is_write && (pte.flags & PTE_WRITE) == 0 {
            return TranslateResult::PermissionDenied;
        }
        let pa = make_pa(pte.ppn, offset);
        TranslateResult::Translated(pa)
    }
}

/// Virtual page number of `va`: its bits 31..12.
pub fn va_to_vpn(va: u32) -> (vpn: usize)
    ensures
        vpn == vpn_of(va),
{
    assert(va >> 12u32 == va / 4096) by (bit_vector);
    (va >> PAGE_OFFSET_BITS) as usize
}

/// In-page offset of `va`: its bits 11..0.
pub fn va_to_offset(va: u32) -> (offset: u32)
    ensures
        offset == offset_of(va),
{
    assert(1u32 << 12u32 == 4096u32) by (bit_vector);
    assert(va & 4095u32 == va % 4096) by (bit_vector);
    va & ((1 << PAGE_OFFSET_BITS) - 1)
}

/// Physical address of byte `offset` of physical page `ppn`.
pub fn make_pa(ppn: u32, offset: u32) -> (pa: u32)
    requires
        pa_of(ppn, offset) <= u32::MAX,
    ensures
        pa == pa_of(ppn, offset),
{
    ppn * PAGE_SIZE as u32 + offset
}

/// A fresh table translates nothing: every access page-faults.
pub proof fn lemma_new_table_faults(max_pages: nat, va: u32, is_write: bool)
    ensures
        translation(Seq::new(max_pages, |i: int| None::<PageTableEntry>), va, is_write)
            == TranslateResult::PageFault,
{
}

/// Reading back a mapping: after mapping page `vpn` to `ppn` with `flags`,
/// `lookup(vpn)` gives that entry, and an access to any address in the page
/// page-faults if `flags` lacks VALID, is denied if it is a write and
/// `flags` lacks WRITE, and otherwise reaches the same offset in page `ppn`.
pub proof fn lemma_translate_after_map(
    entries: Seq<Option<PageTableEntry>>,
    vpn: nat,
    ppn: u32,
    flags: u8,
    va: u32,
    is_write: bool,
)
    requires
        vpn < entries.len(),
        vpn_of(va) == vpn,
    ensures
        entries.update(vpn as int, Some(PageTableEntry { ppn, flags }))[vpn as int] == Some(
            PageTableEntry { ppn, flags },
        ),
        translation(entries.update(vpn as int, Some(PageTableEntry { ppn, flags })), va, is_write)
            == if flags & PTE_VALID == 0 {
            TranslateResult::PageFault
        } else if is_write && flags & PTE_WRITE == 0 {
            TranslateResult::PermissionDenied
        } else {
            TranslateResult::Translated(pa_of(ppn, offset_of(va)) as u32)
        },
{
}

/// After unmapping page `vpn`, `lookup(vpn)` finds nothing and every access
/// to the page page-faults.
pub proof fn lemma_translate_after_unmap(
    entries: Seq<Option<PageTableEntry>>,
    vpn: nat,
    va: u32,
    is_write: bool,
)
    requires
        vpn < entries.len(),
        vpn_of(va) == vpn,
    ensures
        entries.update(vpn as int, None)[vpn as int] is None,
        translation(entries.update(vpn as int, None), va, is_write) == TranslateResult::PageFault,
{
}

/// Mapping or unmapping one page leaves the translation of every address in
/// other pages as it was.
pub proof fn lemma_update_other_page(
    entries: Seq<Option<PageTableEntry>>,
    vpn: nat,
    entry: Option<PageTableEntry>,
    va: u32,
    is_write: bool,
)
    requires
        vpn < entries.len(),
        vpn_of(va) != vpn,
    ensures
        translation(entries.update(vpn as int, entry), va, is_write) == translation(
            entries,
            va,
            is_write,
        ),
{
}

/// Reads are never denied; a write is denied exactly where a read of the
/// same address succeeds and the page is not writable.
pub proof fn lemma_permission_only_for_writes(
    entries: Seq<Option<PageTableEntry>>,
    va: u32,
)
    ensures
        translation(entries, va, false) != TranslateResult::PermissionDenied,
        translation(entries, va, true) == TranslateResult::PermissionDenied <==> (translation(
            entries,
            va,
            false,
        ) is Translated && entries[vpn_of(va) as int].unwrap().flags & PTE_WRITE == 0),
{
}

/// Splitting an address into page number and offset and joining them again
/// gives the address back.
pub proof fn lemma_split_join(va: u32)
    ensures
        vpn_of(va) <= 0xfffff,
        pa_of(vpn_of(va) as u32, offset_of(va)) == va,
{
}

/// What translation does, in plain arithmetic: the page number is
/// `va / 4096`; past the end of the table, on a missing entry or on one
/// without VALID the access page-faults; a write to an entry without WRITE
/// is denied; otherwise the result is `ppn * 4096 + va % 4096`.
pub proof fn lemma_translation_arithmetic(entries: Seq<Option<PageTableEntry>>, va: u32, is_write: bool)
    ensures
        va / 4096 >= entries.len() ==> translation(entries, va, is_write) == TranslateResult::PageFault,
        va / 4096 < entries.len() ==> match entries[(va / 4096) as int] {
            None => translation(entries, va, is_write) == TranslateResult::PageFault,
            Some(e) => {
                &&& e.flags & 1 == 0 ==> translation(entries, va, is_write)
                    == TranslateResult::PageFault
                &&& e.flags & 1 != 0 && is_write && e.flags & 4 == 0 ==> translation(
                    entries,
                    va,
                    is_write,
                ) == TranslateResult::PermissionDenied
                &&& e.flags & 1 != 0 && (!is_write || e.flags & 4 != 0) && e.ppn * 4096 + va % 4096
                    <= u32::MAX ==> translation(entries, va, is_write) == TranslateResult::Translated(
                    (e.ppn * 4096 + va % 4096) as u32,
                )
            },
        },
{
    assert(PTE_VALID == 1u8) by (bit_vector);
    assert(PTE_WRITE == 4u8) by (bit_vector);
}

} // verus!
