//! SV39 three-level page table.
//!
//! A 39-bit virtual address splits into VPN[2] (bits 38..30), VPN[1]
//! (bits 29..21), VPN[0] (bits 20..12) and a 12-bit page offset. Each page
//! table page holds 512 eight-byte entries; the walk starts at the root table
//! and descends one level per VPN field until it meets a leaf entry (one with
//! any of R, W, X set). A leaf at level 1 maps a 2 MiB superpage, a leaf at
//! level 2 a 1 GiB page.
//!
//! Page table pages live in a map from physical page number to table, which
//! stands for physical memory; new tables get page numbers from a counter.

use std::collections::HashMap;
use vstd::arithmetic::power2::pow2;
use vstd::prelude::*;

verus! {

broadcast use vstd::std_specs::hash::group_hash_axioms;

/// Page size (4 KiB).
pub const PAGE_SIZE: usize = 4096;

/// Entries per page table page (2^9).
pub const PT_ENTRIES: usize = 512;

/// Valid.
pub const PTE_V: u64 = 1 << 0;

/// Readable.
pub const PTE_R: u64 = 1 << 1;

/// Writable.
pub const PTE_W: u64 = 1 << 2;

/// Executable.
pub const PTE_X: u64 = 1 << 3;

/// Position of the physical page number in an entry (bits 53..10).
const PPN_SHIFT: u32 = 10;

/// One page table page: 512 entries.
#[derive(Clone)]
pub struct PageTableNode {
    pub entries: [u64; PT_ENTRIES],
}

/// The contents of a freshly allocated table: 512 zero entries.
pub open spec fn empty_table() -> Seq<u64> {
    Seq::new(512, |i: int| 0u64)
}

impl PageTableNode {
    /// A table with every entry zero (invalid).
    pub fn new() -> (node: Self)
        ensures
            node.entries@ == empty_table(),
    {
        let node = Self { entries: [0u64; 512] };
        assert(node.entries@ =~= empty_table());
        node
    }
}

impl Default for PageTableNode {
    fn default() -> (node: Self)
        ensures
            node.entries@ == empty_table(),
    {
        Self::new()
    }
}

/// Index that VPN[`level`] of `va` selects: bits `12 + 9 * level` and up,
/// nine of them.
pub open spec fn vpn_of(va: u64, level: nat) -> nat {
    (va as nat / pow2(12 + 9 * level)) % 512
}

/// The entry has its valid bit set.
pub open spec fn pte_valid(pte: u64) -> bool {
    pte & PTE_V != 0
}

/// The entry is a leaf: one of R, W, X is set.
pub open spec fn pte_is_leaf(pte: u64) -> bool {
    pte & (PTE_R | PTE_W | PTE_X) != 0
}

/// Physical page number held in an entry.
pub open spec fn pte_ppn(pte: u64) -> u64 {
    pte >> 10u64
}

/// The entry that points to the table at physical page `ppn`.
pub open spec fn table_pte(ppn: u64) -> u64 {
    (ppn << 10u64) | PTE_V
}

/// The leaf entry for physical address `pa` with flag bits `flags`.
pub open spec fn leaf_pte(pa: u64, flags: u64) -> u64 {
    ((pa >> 12u64) << 10u64) | flags
}

/// Physical address that leaf `pte` gives `va`, when the leaf maps a page
/// of `size` bytes: the page's base address with the low bits of `va`.
pub open spec fn leaf_address(pte: u64, va: u64, size: u64) -> u64 {
    (pte_ppn(pte) << 12u64) | (va % size)
}

/// Outcome of a walk of the SV39 page table.
#[derive(Debug, PartialEq, Eq, Structural)]
pub enum TranslateResult {
    /// The translated physical address.
    Translated(u64),
    /// No valid leaf maps the address.
    PageFault,
}

/// The walk of `va` in `tables`, starting at table `root`.
pub open spec fn translation(tables: Map<u64, Seq<u64>>, root: u64, va: u64) -> TranslateResult {
    let e2 = tables[root][vpn_of(va, 2) as int];
    if !pte_valid(e2) {
        TranslateResult::PageFault
    } else if pte_is_leaf(e2) {
        TranslateResult::Translated(leaf_address(e2, va, 0x4000_0000))
    } else {
        let e1 = tables[pte_ppn(e2)][vpn_of(va, 1) as int];
        if !pte_valid(e1) {
            TranslateResult::PageFault
        } else if pte_is_leaf(e1) {
            TranslateResult::Translated(leaf_address(e1, va, 0x20_0000))
        } else {
            let e0 = tables[pte_ppn(e1)][vpn_of(va, 0) as int];
            if !pte_valid(e0) || !pte_is_leaf(e0) {
                TranslateResult::PageFault
            } else {
                TranslateResult::Translated(leaf_address(e0, va, 0x1000))
            }
        }
    }
}

/// Every table that the walk of `va` reaches through a non-leaf entry exists.
pub open spec fn walk_defined(tables: Map<u64, Seq<u64>>, root: u64, va: u64) -> bool {
    let e2 = tables[root][vpn_of(va, 2) as int];
    pte_valid(e2) && !pte_is_leaf(e2) ==> {
        &&& tables.contains_key(pte_ppn(e2))
        &&& {
            let e1 = tables[pte_ppn(e2)][vpn_of(va, 1) as int];
            pte_valid(e1) && !pte_is_leaf(e1) ==> tables.contains_key(pte_ppn(e1))
        }
    }
}

/// Makes sure a table hangs below entry `idx` of table `node`: a valid entry
/// is kept as it is; an invalid one is replaced by a pointer to a fresh empty
/// table at page `next`, and the counter moves on. Yields the new tables, the
/// new counter and the page number that the entry then holds.
pub open spec fn descend(tables: Map<u64, Seq<u64>>, next: u64, node: u64, idx: nat) -> (
    Map<u64, Seq<u64>>,
    u64,
    u64,
) {
    let pte = tables[node][idx as int];
    if pte_valid(pte) {
        (tables, next, pte_ppn(pte))
    } else {
        let t = tables.insert(next, empty_table()).insert(
            node,
            tables[node].update(idx as int, table_pte(next)),
        );
        (t, (next + 1) as u64, pte_ppn(table_pte(next)))
    }
}

/// Writes `value` into entry `idx` of table `node`.
pub open spec fn write_entry(tables: Map<u64, Seq<u64>>, node: u64, idx: nat, value: u64) -> Map<
    u64,
    Seq<u64>,
> {
    tables.insert(node, tables[node].update(idx as int, value))
}

/// Tables and counter after mapping the 4 KiB page of `va` to `pa`.
pub open spec fn map_page_effect(
    tables: Map<u64, Seq<u64>>,
    next: u64,
    root: u64,
    va: u64,
    pa: u64,
    flags: u64,
) -> (Map<u64, Seq<u64>>, u64) {
    let (t1, n1, c1) = descend(tables, next, root, vpn_of(va, 2));
    let (t2, n2, c0) = descend(t1, n1, c1, vpn_of(va, 1));
    (write_entry(t2, c0, vpn_of(va, 0), leaf_pte(pa, flags)), n2)
}

/// `descend` can run: the counter does not overflow where a table is
/// allocated.
pub open spec fn descend_defined(tables: Map<u64, Seq<u64>>, next: u64, node: u64, idx: nat) -> bool {
    !pte_valid(tables[node][idx as int]) ==> next < u64::MAX
}

/// Mapping the 4 KiB page of `va` finds every table it descends into, and the
/// counter does not overflow where it allocates one.
pub open spec fn map_page_defined(tables: Map<u64, Seq<u64>>, next: u64, root: u64, va: u64) -> bool {
    let (t1, n1, c1) = descend(tables, next, root, vpn_of(va, 2));
    let (t2, n2, c0) = descend(t1, n1, c1, vpn_of(va, 1));
    &&& descend_defined(tables, next, root, vpn_of(va, 2))
    &&& t1.contains_key(c1)
    &&& descend_defined(t1, n1, c1, vpn_of(va, 1))
    &&& t2.contains_key(c0)
}

/// Tables and counter after mapping the 2 MiB superpage of `va` to `pa`.
pub open spec fn map_superpage_effect(
    tables: Map<u64, Seq<u64>>,
    next: u64,
    root: u64,
    va: u64,
    pa: u64,
    flags: u64,
) -> (Map<u64, Seq<u64>>, u64) {
    let (t1, n1, c1) = descend(tables, next, root, vpn_of(va, 2));
    (write_entry(t1, c1, vpn_of(va, 1), leaf_pte(pa, flags)), n1)
}

/// Mapping the superpage of `va` finds the table it descends into, and the
/// counter does not overflow where it allocates one.
pub open spec fn map_superpage_defined(
    tables: Map<u64, Seq<u64>>,
    next: u64,
    root: u64,
    va: u64,
) -> bool {
    let (t1, n1, c1) = descend(tables, next, root, vpn_of(va, 2));
    &&& descend_defined(tables, next, root, vpn_of(va, 2))
    &&& t1.contains_key(c1)
}

/// The tables are well formed: the root table exists, every table has 512
/// entries, and every table's page number lies below the allocation counter.
pub open spec fn tables_wf(tables: Map<u64, Seq<u64>>, root: u64, next: u64) -> bool {
    &&& tables.contains_key(root)
    &&& forall|k: u64| #[trigger] tables.contains_key(k) ==> k < next && tables[k].len() == 512
}

/// A simulated SV39 three-level page table.
pub struct Sv39PageTable {
    /// Page table pages, by physical page number.
    nodes: HashMap<u64, PageTableNode>,
    /// Physical page number of the root table.
    pub root_ppn: u64,
    /// Next physical page number to hand out to a new table.
    next_ppn: u64,
}

impl Sv39PageTable {
    /// Contents of every table, by physical page number.
    pub closed spec fn tables(&self) -> Map<u64, Seq<u64>> {
        self.nodes@.map_values(|n: PageTableNode| n.entries@)
    }

    /// Physical page number of the root table.
    pub closed spec fn root(&self) -> u64 {
        self.root_ppn
    }

    /// Physical page number that the next new table will get.
    pub closed spec fn next_free(&self) -> u64 {
        self.next_ppn
    }

    /// The table is well formed (see `tables_wf`).
    pub open spec fn wf(&self) -> bool {
        tables_wf(self.tables(), self.root(), self.next_free())
    }

    /// Creates a table with an empty root table at page 0x80000; new tables
    /// are numbered from 0x80001.
    pub fn new() -> (pt: Self)
        ensures
            pt.wf(),
            pt.root() == 0x80000,
            pt.next_free() == 0x80001,
            pt.tables() == Map::<u64, Seq<u64>>::empty().insert(0x80000, empty_table()),
    {
        let mut pt = Self { nodes: HashMap::new(), root_ppn: 0x80000, next_ppn: 0x80001 };
        pt.nodes.insert(pt.root_ppn, PageTableNode::new());
        assert(pt.tables() =~= Map::<u64, Seq<u64>>::empty().insert(0x80000, empty_table()));
        pt
    }

    /// Allocates a new empty table and returns its page number.
    fn alloc_node(&mut self) -> (ppn: u64)
        requires
            old(self).wf(),
            old(self).next_free() < u64::MAX,
        ensures
            ppn == old(self).next_free(),
            final(self).next_free() == old(self).next_free() + 1,
            final(self).root() == old(self).root(),
            final(self).tables() == old(self).tables().insert(ppn, empty_table()),
            final(self).wf(),
    {
        let ppn = self.next_ppn;
        self.next_ppn += 1;
        self.nodes.insert(ppn, PageTableNode::new());
        assert(self.tables() =~= old(self).tables().insert(ppn, empty_table()));
        ppn
    }

    /// Writes `value` into entry `idx` of the table at page `node`.
    fn set_entry(&mut self, node: u64, idx: usize, value: u64)
        requires
            old(self).wf(),
            old(self).tables().contains_key(node),
            idx < 512,
        ensures
            final(self).tables() == write_entry(old(self).tables(), node, idx as nat, value),
            final(self).root() == old(self).root(),
            final(self).next_free() == old(self).next_free(),
            final(self).wf(),
    {
        let mut table = self.nodes.remove(&node).unwrap();
        table.entries[idx] = value;
        self.nodes.insert(node, table);
        assert(self.tables() =~= write_entry(old(self).tables(), node, idx as nat, value));
    }

    /// Makes sure a table hangs below entry `idx` of the table at page
    /// `node`, allocating one if the entry is invalid, and returns the page
    /// number that the entry holds.
    fn ensure_child(&mut self, node: u64, idx: usize) -> (child: u64)
        requires
            old(self).wf(),
            old(self).tables().contains_key(node),
            idx < 512,
            descend_defined(old(self).tables(), old(self).next_free(), node, idx as nat),
        ensures
            (final(self).tables(), final(self).next_free(), child) == descend(
                old(self).tables(),
                old(self).next_free(),
                node,
                idx as nat,
            ),
            final(self).root() == old(self).root(),
            final(self).wf(),
    {
        let mut pte = self.nodes.get(&node).unwrap().entries[idx];
        if pte & PTE_V == 0 {
            let new_ppn = self.alloc_node();
            pte = (new_ppn << PPN_SHIFT) | PTE_V;
            self.set_entry(node, idx, pte);
            assert(self.tables() =~= old(self).tables().insert(new_ppn, empty_table()).insert(
                node,
                old(self).tables()[node].update(idx as int, table_pte(new_ppn)),
            ));
        }
        pte >> PPN_SHIFT
    }

    /// Maps the 4 KiB page of `va` to the physical page of `pa` with flag
    /// bits `flags`, creating the level-1 and level-0 tables on the way where
    /// the walk finds invalid entries.
    pub fn map_page(&mut self, va: u64, pa: u64, flags: u64)
        requires
            old(self).wf(),
            map_page_defined(old(self).tables(), old(self).next_free(), old(self).root(), va),
        ensures
            final(self).wf(),
            final(self).root() == old(self).root(),
            (final(self).tables(), final(self).next_free()) == map_page_effect(
                old(self).tables(),
                old(self).next_free(),
                old(self).root(),
                va,
                pa,
                flags,
            ),
    {
        let vpn2 = Self::extract_vpn(va, 2);
        let vpn1 = Self::extract_vpn(va, 1);
        let vpn0 = Self::extract_vpn(va, 0);
        let root = self.root_ppn;
        let level1_table = self.ensure_child(root, vpn2);
        let level0_table = self.ensure_child(level1_table, vpn1);
        let level0_pte = ((pa >> 12) << PPN_SHIFT) | flags;
        self.set_entry(level0_table, vpn0, level0_pte);
    }

    /// Maps the 2 MiB superpage of `va` to the one at `pa` with flag bits
    /// `flags`: a leaf entry at level 1, creating the level-1 table where the
    /// root entry is invalid.
    pub fn map_superpage(&mut self, va: u64, pa: u64, flags: u64)
        requires
            va % 0x20_0000 == 0,
            pa % 0x20_0000 == 0,
            old(self).wf(),
            map_superpage_defined(old(self).tables(), old(self).next_free(), old(self).root(), va),
        ensures
            final(self).wf(),
            final(self).root() == old(self).root(),
            (final(self).tables(), final(self).next_free()) == map_superpage_effect(
                old(self).tables(),
                old(self).next_free(),
                old(self).root(),
                va,
                pa,
                flags,
            ),
    {
        let mega_size: u64 = (PAGE_SIZE * PT_ENTRIES) as u64;
        assert(va % mega_size == 0);
        assert(pa % mega_size == 0);
        let vpn2 = Self::extract_vpn(va, 2);
        let vpn1 = Self::extract_vpn(va, 1);
        let root = self.root_ppn;
        let level1_table = self.ensure_child(root, vpn2);
        let level1_pte = ((pa >> 12) << PPN_SHIFT) | flags;
        self.set_entry(level1_table, vpn1, level1_pte);
    }

    /// Walks the table from the root and translates `va`: a page fault where
    /// the walk meets an invalid entry (or a non-leaf at level 0), else the
    /// leaf's page base with the low bits of `va` (30 of them for a level-2
    /// leaf, 21 for level 1, 12 for level 0).
    pub fn translate(&self, va: u64) -> (r: TranslateResult)
        requires
            self.wf(),
            walk_defined(self.tables(), self.root(), va),
        ensures
            r == translation(self.tables(), self.root(), va),
    {
        let vpn2 = Self::extract_vpn(va, 2);
        let vpn1 = Self::extract_vpn(va, 1);
        let vpn0 = Self::extract_vpn(va, 0);

        let root_table = self.nodes.get(&self.root_ppn).unwrap();
        let level2_pte = root_table.entries[vpn2];
        if (level2_pte & PTE_V) == 0 {
            return TranslateResult::PageFault;
        }
        if level2_pte & (PTE_R | PTE_W | PTE_X) != 0 {
            let ppn = level2_pte >> PPN_SHIFT;
            proof {
                assert(1u64 << 30u64 == 0x4000_0000) by (bit_vector);
                assert(va & 0x3fff_ffff == va % 0x4000_0000) by (bit_vector);
            }
            let pa = (ppn << 12) | (va & ((1u64 << 30u64) - 1));
            return TranslateResult::Translated(pa);
        }
        let level2_table = self.nodes.get(&(level2_pte >> PPN_SHIFT)).unwrap();

        let level1_pte = level2_table.entries[vpn1];
        if (level1_pte & PTE_V) == 0 {
            return TranslateResult::PageFault;
        }
        if level1_pte & (PTE_R | PTE_W | PTE_X) != 0 {
            let ppn = level1_pte >> PPN_SHIFT;
            proof {
                assert(1u64 << 21u64 == 0x20_0000) by (bit_vector);
                assert(va & 0x1f_ffff == va % 0x20_0000) by (bit_vector);
            }
            let pa = (ppn << 12) | (va & ((1u64 << 21u64) - 1));
            return TranslateResult::Translated(pa);
        }

        let level0_pte = self.nodes.get(&(level1_pte >> PPN_SHIFT)).unwrap().entries[vpn0];
        if (level0_pte & PTE_V) == 0 {
            return TranslateResult::PageFault;
        }
        if level0_pte & (PTE_R | PTE_W | PTE_X) == 0 {
            return TranslateResult::PageFault;
        }
        let ppn = level0_pte >> PPN_SHIFT;
        assert(va & 0xFFF == va % 0x1000) by (bit_vector);
        let pa = (ppn << 12) | (va & 0xFFF);
        TranslateResult::Translated(pa)
    }

    /// Index that VPN[`level`] of `va` selects: `va` shifted right by
    /// `12 + 9 * level`, low nine bits.
    pub fn extract_vpn(va: u64, level: usize) -> (idx: usize)
        requires
            level <= 5,
        ensures
            idx == vpn_of(va, level as nat),
            idx < 512,
    {
        let right_shift = 12 + level * 9;
        let shifted = va >> right_shift;
        proof {
            vstd::bits::lemma_u64_shr_is_div(va, right_shift as u64);
            assert(shifted & 0x1FF == shifted % 512) by (bit_vector);
        }
        (shifted & 0x1FF) as usize
    }
}

impl Default for Sv39PageTable {
    fn default() -> (pt: Self)
        ensures
            pt.wf(),
            pt.root() == 0x80000,
            pt.next_free() == 0x80001,
            pt.tables() == Map::<u64, Seq<u64>>::empty().insert(0x80000, empty_table()),
    {
        Self::new()
    }
}

/// VPN[0], VPN[1] and VPN[2] of `va` are its bit fields 20..12, 29..21 and
/// 38..30.
proof fn lemma_vpn_bits(va: u64)
    ensures
        vpn_of(va, 0) == (va >> 12u64) & 0x1ff,
        vpn_of(va, 1) == (va >> 21u64) & 0x1ff,
        vpn_of(va, 2) == (va >> 30u64) & 0x1ff,
{
    vstd::bits::lemma_u64_shr_is_div(va, 12);
    vstd::bits::lemma_u64_shr_is_div(va, 21);
    vstd::bits::lemma_u64_shr_is_div(va, 30);
    assert(vpn_of(va, 1) == (va as nat / pow2(21)) % 512);
    assert(vpn_of(va, 2) == (va as nat / pow2(30)) % 512);
    assert((va >> 12u64) & 0x1ff == (va >> 12u64) % 512) by (bit_vector);
    assert((va >> 21u64) & 0x1ff == (va >> 21u64) % 512) by (bit_vector);
    assert((va >> 30u64) & 0x1ff == (va >> 30u64) % 512) by (bit_vector);
}

/// `va` and `va2` lie in the same 4 KiB page, once the address bits from 39
/// up (which no walk reads) are dropped.
pub open spec fn same_page(va: u64, va2: u64) -> bool {
    (va % 0x80_0000_0000) / 0x1000 == (va2 % 0x80_0000_0000) / 0x1000
}

/// `va` and `va2` lie in the same 2 MiB superpage, once the address bits
/// from 39 up are dropped.
pub open spec fn same_superpage(va: u64, va2: u64) -> bool {
    (va % 0x80_0000_0000) / 0x20_0000 == (va2 % 0x80_0000_0000) / 0x20_0000
}

/// Two addresses in the same 4 KiB page select the same entry at every level.
proof fn lemma_vpn_same_page(va: u64, va2: u64)
    requires
        same_page(va, va2),
    ensures
        vpn_of(va2, 0) == vpn_of(va, 0),
        vpn_of(va2, 1) == vpn_of(va, 1),
        vpn_of(va2, 2) == vpn_of(va, 2),
{
    lemma_vpn_bits(va);
    lemma_vpn_bits(va2);
    assert((va % 0x80_0000_0000) / 0x1000 == (va2 % 0x80_0000_0000) / 0x1000 ==> (va2 >> 12u64)
        & 0x1ff == (va >> 12u64) & 0x1ff
        && (va2 >> 21u64) & 0x1ff == (va >> 21u64) & 0x1ff && (va2 >> 30u64) & 0x1ff == (va
        >> 30u64) & 0x1ff) by (bit_vector);
}

/// Two addresses in the same 2 MiB superpage select the same entries at
/// levels 2 and 1.
proof fn lemma_vpn_same_superpage(va: u64, va2: u64)
    requires
        same_superpage(va, va2),
    ensures
        vpn_of(va2, 1) == vpn_of(va, 1),
        vpn_of(va2, 2) == vpn_of(va, 2),
{
    lemma_vpn_bits(va);
    lemma_vpn_bits(va2);
    assert((va % 0x80_0000_0000) / 0x20_0000 == (va2 % 0x80_0000_0000) / 0x20_0000 ==> (va2
        >> 21u64) & 0x1ff == (va >> 21u64) & 0x1ff
        && (va2 >> 30u64) & 0x1ff == (va >> 30u64) & 0x1ff) by (bit_vector);
}

/// A table entry is valid and no leaf; a leaf entry built from flags that
/// are valid, name a permission and stay below bit 10 is a valid leaf.
proof fn lemma_entry_kinds(next: u64, pa: u64, flags: u64)
    ensures
        pte_valid(table_pte(next)),
        !pte_is_leaf(table_pte(next)),
        pte_valid(leaf_pte(pa, flags)) == (flags & PTE_V != 0),
        pte_is_leaf(leaf_pte(pa, flags)) == (flags & (PTE_R | PTE_W | PTE_X) != 0),
{
    assert(PTE_V == 1u64) by (bit_vector);
    assert(PTE_R | PTE_W | PTE_X == 14u64) by (bit_vector);
    assert(((next << 10u64) | 1u64) & 1u64 != 0) by (bit_vector);
    assert(((next << 10u64) | 1u64) & 14u64 == 0) by (bit_vector);
    assert((((pa >> 12u64) << 10u64) | flags) & 1u64 == flags & 1u64 && (((pa >> 12u64)
        << 10u64) | flags) & 14u64 == flags & 14u64) by (bit_vector);
}

/// What `descend` does to the rest of the tables: they stay well formed,
/// the entry it passes through is valid and holds the child's page number,
/// and every other entry of every existing table keeps its value.
proof fn lemma_descend(
    tables: Map<u64, Seq<u64>>,
    root: u64,
    next: u64,
    node: u64,
    idx: nat,
    k: u64,
    i: int,
)
    requires
        tables_wf(tables, root, next),
        tables.contains_key(node),
        idx < 512,
        descend_defined(tables, next, node, idx),
    ensures
        ({
            let (t, n, c) = descend(tables, next, node, idx);
            &&& tables_wf(t, root, n)
            &&& n >= next
            &&& t.contains_key(node)
            &&& pte_valid(t[node][idx as int])
            &&& pte_ppn(t[node][idx as int]) == c
            &&& tables.contains_key(k) ==> t.contains_key(k)
            &&& tables.contains_key(k) && 0 <= i < 512 && (k != node || i != idx || pte_valid(
                tables[node][idx as int],
            )) ==> t[k][i] == tables[k][i]
        }),
{
    lemma_entry_kinds(next, 0, 0);
    let (t, n, c) = descend(tables, next, node, idx);
    if !pte_valid(tables[node][idx as int]) {
        assert forall|j: u64| #[trigger] t.contains_key(j) implies j < n && t[j].len() == 512 by {
            if j != next && j != node {
                assert(tables.contains_key(j));
            }
        }
        if tables.contains_key(k) {
            assert(k < next);
        }
    }
}

/// The tables that a mapping walks through: pass through table entries, not
/// leaves, and the (at most three) entries that it writes or follows are
/// distinct slots. For `level == 0` this describes `map_page` (root entry,
/// level-1 entry, leaf); for `level == 1`, `map_superpage` (root entry,
/// leaf).
pub open spec fn mapping_path_clear(
    tables: Map<u64, Seq<u64>>,
    next: u64,
    root: u64,
    va: u64,
    level: nat,
) -> bool {
    let (t1, n1, c1) = descend(tables, next, root, vpn_of(va, 2));
    let (t2, n2, c0) = descend(t1, n1, c1, vpn_of(va, 1));
    &&& !pte_is_leaf(t1[root][vpn_of(va, 2) as int])
    &&& (c1 != root || vpn_of(va, 1) != vpn_of(va, 2))
    &&& level == 0 ==> {
        &&& !pte_is_leaf(t2[c1][vpn_of(va, 1) as int])
        &&& (c0 != root || vpn_of(va, 0) != vpn_of(va, 2))
        &&& (c0 != c1 || vpn_of(va, 0) != vpn_of(va, 1))
    }
}

/// A freshly created table translates nothing: every address page-faults.
pub proof fn lemma_new_table_faults(va: u64)
    ensures
        translation(Map::<u64, Seq<u64>>::empty().insert(0x80000, empty_table()), 0x80000, va)
            == TranslateResult::PageFault,
        walk_defined(Map::<u64, Seq<u64>>::empty().insert(0x80000, empty_table()), 0x80000, va),
{
    assert(0u64 & PTE_V == 0) by (bit_vector);
}

/// Reading back a 4 KiB mapping: after `map_page(va, pa, flags)`, every
/// address in the page of `va` page-faults if `flags` lacks V or has none of
/// R, W, X, and otherwise translates through the new leaf; with no flag bit
/// at or above bit 10 that is the page of `pa` at the address's own offset.
/// This holds provided the walk that the mapping followed is clear (see
/// `mapping_path_clear`).
pub proof fn lemma_translate_after_map_page(
    tables: Map<u64, Seq<u64>>,
    next: u64,
    root: u64,
    va: u64,
    pa: u64,
    flags: u64,
    va2: u64,
)
    requires
        tables_wf(tables, root, next),
        map_page_defined(tables, next, root, va),
        mapping_path_clear(tables, next, root, va, 0),
        same_page(va, va2),
    ensures
        ({
            let (t, n) = map_page_effect(tables, next, root, va, pa, flags);
            &&& walk_defined(t, root, va2)
            &&& translation(t, root, va2) == if flags & PTE_V == 0 || flags & (PTE_R | PTE_W
                | PTE_X) == 0 {
                TranslateResult::PageFault
            } else {
                TranslateResult::Translated(leaf_address(leaf_pte(pa, flags), va2, 0x1000))
            }
        }),
        flags < 1024 ==> leaf_address(leaf_pte(pa, flags), va2, 0x1000) == pa - pa % 0x1000 + va2
            % 0x1000,
{
    let v2 = vpn_of(va, 2);
    let v1 = vpn_of(va, 1);
    let v0 = vpn_of(va, 0);
    lemma_vpn_same_page(va, va2);
    let (t1, n1, c1) = descend(tables, next, root, v2);
    let (t2, n2, c0) = descend(t1, n1, c1, v1);
    let leaf = leaf_pte(pa, flags);
    let t3 = write_entry(t2, c0, v0, leaf);
    lemma_entry_kinds(next, pa, flags);
    // The root entry: set up by the first step, untouched afterwards.
    lemma_descend(tables, root, next, root, v2, root, v2 as int);
    // The level-1 entry: set up by the second step, untouched by the leaf.
    lemma_descend(t1, root, n1, c1, v1, root, v2 as int);
    assert(t3[root][v2 as int] == t1[root][v2 as int]);
    assert(t3[c1][v1 as int] == t2[c1][v1 as int]);
    assert(t3[c0][v0 as int] == leaf);
    assert(flags < 1024 ==> ((((pa >> 12u64) << 10u64) | flags) >> 10u64) << 12u64 == pa - pa
        % 0x1000 && ((pa - pa % 0x1000) as u64 | va2 % 0x1000) == pa - pa % 0x1000 + va2
        % 0x1000) by (bit_vector);
}

/// Reading back a 2 MiB mapping: after `map_superpage(va, pa, flags)` with
/// flags that do not make a pointer to a table (V clear, or one of R, W, X
/// set), every address in the superpage of `va` page-faults if `flags`
/// lacks V, and otherwise translates through the new leaf; with no flag bit
/// at or above bit 10 that is the same offset from `pa`. This holds provided
/// the walk that the mapping followed is clear (see `mapping_path_clear`).
pub proof fn lemma_translate_after_map_superpage(
    tables: Map<u64, Seq<u64>>,
    next: u64,
    root: u64,
    va: u64,
    pa: u64,
    flags: u64,
    va2: u64,
)
    requires
        va % 0x20_0000 == 0,
        pa % 0x20_0000 == 0,
        tables_wf(tables, root, next),
        map_superpage_defined(tables, next, root, va),
        mapping_path_clear(tables, next, root, va, 1),
        flags & PTE_V == 0 || flags & (PTE_R | PTE_W | PTE_X) != 0,
        same_superpage(va, va2),
    ensures
        ({
            let (t, n) = map_superpage_effect(tables, next, root, va, pa, flags);
            &&& walk_defined(t, root, va2)
            &&& translation(t, root, va2) == if flags & PTE_V == 0 {
                TranslateResult::PageFault
            } else {
                TranslateResult::Translated(leaf_address(leaf_pte(pa, flags), va2, 0x20_0000))
            }
        }),
        flags < 1024 ==> leaf_address(leaf_pte(pa, flags), va2, 0x20_0000) == pa + va2
            % 0x20_0000,
{
    let v2 = vpn_of(va, 2);
    let v1 = vpn_of(va, 1);
    lemma_vpn_same_superpage(va, va2);
    let (t1, n1, c1) = descend(tables, next, root, v2);
    let leaf = leaf_pte(pa, flags);
    let t2 = write_entry(t1, c1, v1, leaf);
    lemma_entry_kinds(next, pa, flags);
    lemma_descend(tables, root, next, root, v2, root, v2 as int);
    assert(t2[root][v2 as int] == t1[root][v2 as int]);
    assert(t2[c1][v1 as int] == leaf);
    assert(pa % 0x20_0000 == 0 && flags < 1024 ==> ((((pa >> 12u64) << 10u64) | flags) >> 10u64)
        << 12u64 == pa && (pa | va2 % 0x20_0000) == pa + va2 % 0x20_0000) by (bit_vector);
}

/// A successful translation keeps the page offset: the low 12 bits of the
/// physical address are those of the virtual address.
pub proof fn lemma_translation_keeps_offset(tables: Map<u64, Seq<u64>>, root: u64, va: u64)
    ensures
        translation(tables, root, va) matches TranslateResult::Translated(pa) ==> pa % 0x1000
            == va % 0x1000,
{
    assert(forall|p: u64| #![auto]
        ((p << 12u64) | (va % 0x4000_0000)) % 0x1000 == va % 0x1000 && ((p << 12u64) | (va
            % 0x20_0000)) % 0x1000 == va % 0x1000 && ((p << 12u64) | (va % 0x1000)) % 0x1000 == va
            % 0x1000) by (bit_vector);
}

/// Address bits 39 and up take no part in translation.
pub proof fn lemma_translation_ignores_high_bits(tables: Map<u64, Seq<u64>>, root: u64, va: u64)
    ensures
        translation(tables, root, va) == translation(tables, root, va % 0x80_0000_0000),
        walk_defined(tables, root, va) == walk_defined(tables, root, va % 0x80_0000_0000),
{
    let low = (va % 0x80_0000_0000) as u64;
    lemma_vpn_bits(va);
    lemma_vpn_bits(low);
    assert(low == va % 0x80_0000_0000 ==> (low >> 12u64) & 0x1ff == (va >> 12u64) & 0x1ff && (low
        >> 21u64) & 0x1ff == (va >> 21u64) & 0x1ff && (low >> 30u64) & 0x1ff == (va >> 30u64)
        & 0x1ff && low % 0x1000 == va % 0x1000 && low % 0x20_0000 == va % 0x20_0000 && low
        % 0x4000_0000 == va % 0x4000_0000) by (bit_vector);
}

/// Mapping the same 4 KiB page twice in a row with the same arguments does
/// nothing the second time: the walk finds the entries the first call set
/// up, allocates nothing and writes the leaf that is already there.
pub proof fn lemma_map_page_twice(
    tables: Map<u64, Seq<u64>>,
    next: u64,
    root: u64,
    va: u64,
    pa: u64,
    flags: u64,
)
    requires
        tables_wf(tables, root, next),
        map_page_defined(tables, next, root, va),
        mapping_path_clear(tables, next, root, va, 0),
    ensures
        ({
            let (t, n) = map_page_effect(tables, next, root, va, pa, flags);
            &&& tables_wf(t, root, n)
            &&& map_page_defined(t, n, root, va)
            &&& map_page_effect(t, n, root, va, pa, flags) == (t, n)
        }),
{
    let v2 = vpn_of(va, 2);
    let v1 = vpn_of(va, 1);
    let v0 = vpn_of(va, 0);
    let (t1, n1, c1) = descend(tables, next, root, v2);
    let (t2, n2, c0) = descend(t1, n1, c1, v1);
    let leaf = leaf_pte(pa, flags);
    let t3 = write_entry(t2, c0, v0, leaf);
    lemma_descend(tables, root, next, root, v2, root, v2 as int);
    lemma_descend(t1, root, n1, c1, v1, root, v2 as int);
    assert(t3[root][v2 as int] == t1[root][v2 as int]);
    assert(t3[c1][v1 as int] == t2[c1][v1 as int]);
    assert(write_entry(t3, c0, v0, leaf) =~= t3) by {
        assert(t3[c0].update(v0 as int, leaf) =~= t3[c0]);
    }
}

/// Mapping the same 2 MiB superpage twice in a row with the same arguments
/// does nothing the second time.
pub proof fn lemma_map_superpage_twice(
    tables: Map<u64, Seq<u64>>,
    next: u64,
    root: u64,
    va: u64,
    pa: u64,
    flags: u64,
)
    requires
        tables_wf(tables, root, next),
        map_superpage_defined(tables, next, root, va),
        mapping_path_clear(tables, next, root, va, 1),
    ensures
        ({
            let (t, n) = map_superpage_effect(tables, next, root, va, pa, flags);
            &&& tables_wf(t, root, n)
            &&& map_superpage_defined(t, n, root, va)
            &&& map_superpage_effect(t, n, root, va, pa, flags) == (t, n)
        }),
{
    let v2 = vpn_of(va, 2);
    let v1 = vpn_of(va, 1);
    let (t1, n1, c1) = descend(tables, next, root, v2);
    let leaf = leaf_pte(pa, flags);
    let t2 = write_entry(t1, c1, v1, leaf);
    lemma_descend(tables, root, next, root, v2, root, v2 as int);
    assert(t2[root][v2 as int] == t1[root][v2 as int]);
    assert(write_entry(t2, c1, v1, leaf) =~= t2) by {
        assert(t2[c1].update(v1 as int, leaf) =~= t2[c1]);
    }
}

/// What a walk does, level by level, written with the raw bit fields of the
/// address and the entries: VPN[2] = bits 38..30 of `va` selects the root
/// entry; an entry is valid when bit 0 is set and a leaf when one of bits
/// 3..1 is; it holds a page number from bit 10 up.
///
/// - A valid leaf in the root table maps a 1 GiB page: the result is the
///   leaf's page base with the low 30 bits of `va` (VPN[1], VPN[0] and the
///   offset).
/// - Otherwise the walk goes down to the level-1 table the root entry names,
///   where a valid leaf maps a 2 MiB superpage and keeps the low 21 bits.
/// - At level 0 the entry must be a valid leaf; it keeps the low 12 bits.
/// - An invalid entry at any level, or a non-leaf at level 0, page-faults.
pub proof fn lemma_translation_by_level(tables: Map<u64, Seq<u64>>, root: u64, va: u64)
    ensures
        ({
            let e2 = tables[root][((va >> 30u64) & 0x1ffu64) as int];
            let e1 = tables[e2 >> 10u64][((va >> 21u64) & 0x1ffu64) as int];
            let e0 = tables[e1 >> 10u64][((va >> 12u64) & 0x1ffu64) as int];
            let r = translation(tables, root, va);
            &&& e2 & 1 == 0 ==> r == TranslateResult::PageFault
            &&& e2 & 1 != 0 && e2 & 0xe != 0 ==> r == TranslateResult::Translated(
                ((e2 >> 10u64) << 12u64) | (va & 0x3fff_ffffu64),
            )
            &&& e2 & 1 != 0 && e2 & 0xe == 0 && e1 & 1 == 0 ==> r == TranslateResult::PageFault
            &&& e2 & 1 != 0 && e2 & 0xe == 0 && e1 & 1 != 0 && e1 & 0xe != 0 ==> r
                == TranslateResult::Translated(((e1 >> 10u64) << 12u64) | (va & 0x1f_ffffu64))
            &&& e2 & 1 != 0 && e2 & 0xe == 0 && e1 & 1 != 0 && e1 & 0xe == 0 && (e0 & 1 == 0 || e0
                & 0xe == 0) ==> r == TranslateResult::PageFault
            &&& e2 & 1 != 0 && e2 & 0xe == 0 && e1 & 1 != 0 && e1 & 0xe == 0 && e0 & 1 != 0 && e0
                & 0xe != 0 ==> r == TranslateResult::Translated(
                ((e0 >> 10u64) << 12u64) | (va & 0xfffu64),
            )
        }),
{
    lemma_vpn_bits(va);
    assert(PTE_V == 1u64) by (bit_vector);
    assert(PTE_R | PTE_W | PTE_X == 14u64) by (bit_vector);
    assert(va & 0x3fff_ffffu64 == va % 0x4000_0000 && va & 0x1f_ffffu64 == va % 0x20_0000 && va
        & 0xfffu64 == va % 0x1000) by (bit_vector);
}

/// A translation through a 1 GiB leaf in the root table keeps every set bit
/// among bits 29..0 of the address (VPN[1], VPN[0] and the page offset); one
/// through a 2 MiB leaf keeps those among bits 20..0; and every successful
/// translation keeps bits 11..0 exactly.
pub proof fn lemma_leaf_keeps_low_bits(tables: Map<u64, Seq<u64>>, root: u64, va: u64)
    ensures
        ({
            let e2 = tables[root][((va >> 30u64) & 0x1ffu64) as int];
            let e1 = tables[e2 >> 10u64][((va >> 21u64) & 0x1ffu64) as int];
            &&& e2 & 1 != 0 && e2 & 0xe != 0 ==> (translation(tables, root, va) matches TranslateResult::Translated(
                pa,
            ) && pa & (va & 0x3fff_ffffu64) == va & 0x3fff_ffffu64)
            &&& e2 & 1 != 0 && e2 & 0xe == 0 && e1 & 1 != 0 && e1 & 0xe != 0 ==> (translation(
                tables,
                root,
                va,
            ) matches TranslateResult::Translated(pa) && pa & (va & 0x1f_ffffu64) == va
                & 0x1f_ffffu64)
        }),
{
    lemma_translation_by_level(tables, root, va);
    let e2 = tables[root][((va >> 30u64) & 0x1ffu64) as int];
    let e1 = tables[e2 >> 10u64][((va >> 21u64) & 0x1ffu64) as int];
    assert((((e2 >> 10u64) << 12u64) | (va & 0x3fff_ffffu64)) & (va & 0x3fff_ffffu64) == va
        & 0x3fff_ffffu64) by (bit_vector);
    assert((((e1 >> 10u64) << 12u64) | (va & 0x1f_ffffu64)) & (va & 0x1f_ffffu64) == va
        & 0x1f_ffffu64) by (bit_vector);
}

/// A 39-bit virtual address is its three VPN fields and its page offset.
pub proof fn lemma_va_decomposition(va: u64)
    requires
        va < 0x80_0000_0000,
    ensures
        va == vpn_of(va, 2) * 0x4000_0000 + vpn_of(va, 1) * 0x20_0000 + vpn_of(va, 0) * 0x1000
            + va % 0x1000,
{
    lemma_vpn_bits(va);
    assert(va < 0x80_0000_0000 ==> va == ((va >> 30u64) & 0x1ff) * 0x4000_0000 + ((va >> 21u64)
        & 0x1ff) * 0x20_0000 + ((va >> 12u64) & 0x1ff) * 0x1000 + va % 0x1000) by (bit_vector);
}

/// Whether the walk of `va` reads entry `i` of table `k`: the root entry
/// always, the level-1 entry when the root entry is a valid non-leaf, the
/// level-0 entry when the level-1 entry is one too.
pub open spec fn walk_reads(tables: Map<u64, Seq<u64>>, root: u64, va: u64, k: u64, i: int) -> bool {
    let e2 = tables[root][vpn_of(va, 2) as int];
    let e1 = tables[pte_ppn(e2)][vpn_of(va, 1) as int];
    ||| k == root && i == vpn_of(va, 2)
    ||| pte_valid(e2) && !pte_is_leaf(e2) && k == pte_ppn(e2) && i == vpn_of(va, 1)
    ||| pte_valid(e2) && !pte_is_leaf(e2) && pte_valid(e1) && !pte_is_leaf(e1) && k == pte_ppn(e1)
        && i == vpn_of(va, 0)
}

/// Whether mapping the 4 KiB page of `va` writes entry `i` of table `k`:
/// the root entry and the level-1 entry where they are invalid (they then
/// get a pointer to a new table), and the leaf entry.
pub open spec fn map_page_writes(
    tables: Map<u64, Seq<u64>>,
    next: u64,
    root: u64,
    va: u64,
    k: u64,
    i: int,
) -> bool {
    let (t1, n1, c1) = descend(tables, next, root, vpn_of(va, 2));
    let (t2, n2, c0) = descend(t1, n1, c1, vpn_of(va, 1));
    ||| k == root && i == vpn_of(va, 2) && !pte_valid(tables[root][vpn_of(va, 2) as int])
    ||| k == c1 && i == vpn_of(va, 1) && !pte_valid(t1[c1][vpn_of(va, 1) as int])
    ||| k == c0 && i == vpn_of(va, 0)
}

/// Whether mapping the 2 MiB superpage of `va` writes entry `i` of table
/// `k`: the root entry where it is invalid, and the leaf entry.
pub open spec fn map_superpage_writes(
    tables: Map<u64, Seq<u64>>,
    next: u64,
    root: u64,
    va: u64,
    k: u64,
    i: int,
) -> bool {
    let (t1, n1, c1) = descend(tables, next, root, vpn_of(va, 2));
    ||| k == root && i == vpn_of(va, 2) && !pte_valid(tables[root][vpn_of(va, 2) as int])
    ||| k == c1 && i == vpn_of(va, 1)
}

/// A walk depends only on the entries it reads.
proof fn lemma_walk_frame(t: Map<u64, Seq<u64>>, t2: Map<u64, Seq<u64>>, root: u64, va: u64)
    requires
        walk_defined(t, root, va),
        forall|k: u64, i: int| #[trigger]
            walk_reads(t, root, va, k, i) ==> t2.contains_key(k) && t2[k][i] == t[k][i],
    ensures
        walk_defined(t2, root, va),
        translation(t2, root, va) == translation(t, root, va),
{
    let e2 = t[root][vpn_of(va, 2) as int];
    assert(walk_reads(t, root, va, root, vpn_of(va, 2) as int));
    if pte_valid(e2) && !pte_is_leaf(e2) {
        let e1 = t[pte_ppn(e2)][vpn_of(va, 1) as int];
        assert(walk_reads(t, root, va, pte_ppn(e2), vpn_of(va, 1) as int));
        if pte_valid(e1) && !pte_is_leaf(e1) {
            assert(walk_reads(t, root, va, pte_ppn(e1), vpn_of(va, 0) as int));
        }
    }
}

/// Every entry that a defined walk reads lies in an existing table, at an
/// index below 512.
proof fn lemma_walk_reads_in_tables(t: Map<u64, Seq<u64>>, root: u64, next: u64, va: u64, k: u64, i: int)
    requires
        tables_wf(t, root, next),
        walk_defined(t, root, va),
        walk_reads(t, root, va, k, i),
    ensures
        t.contains_key(k),
        0 <= i < 512,
{
}

/// Mapping a 4 KiB page leaves the translation of every other address as it
/// was, as long as the walk of that address reads none of the entries that
/// the mapping writes.
pub proof fn lemma_map_page_frame(
    tables: Map<u64, Seq<u64>>,
    next: u64,
    root: u64,
    va: u64,
    pa: u64,
    flags: u64,
    va2: u64,
)
    requires
        tables_wf(tables, root, next),
        map_page_defined(tables, next, root, va),
        walk_defined(tables, root, va2),
        forall|k: u64, i: int| #[trigger]
            walk_reads(tables, root, va2, k, i) ==> !map_page_writes(tables, next, root, va, k, i),
    ensures
        ({
            let (t, n) = map_page_effect(tables, next, root, va, pa, flags);
            &&& walk_defined(t, root, va2)
            &&& translation(t, root, va2) == translation(tables, root, va2)
        }),
{
    let v2 = vpn_of(va, 2);
    let v1 = vpn_of(va, 1);
    let v0 = vpn_of(va, 0);
    let (t1, n1, c1) = descend(tables, next, root, v2);
    let (t2, n2, c0) = descend(t1, n1, c1, v1);
    let t3 = write_entry(t2, c0, v0, leaf_pte(pa, flags));
    assert forall|k: u64, i: int| #[trigger]
        walk_reads(tables, root, va2, k, i) implies t3.contains_key(k) && t3[k][i] == tables[k][i] by {
        lemma_walk_reads_in_tables(tables, root, next, va2, k, i);
        lemma_descend(tables, root, next, root, v2, k, i);
        lemma_descend(t1, root, n1, c1, v1, k, i);
    }
    lemma_walk_frame(tables, t3, root, va2);
}

/// Mapping a 2 MiB superpage leaves the translation of every other address
/// as it was, as long as the walk of that address reads none of the entries
/// that the mapping writes.
pub proof fn lemma_map_superpage_frame(
    tables: Map<u64, Seq<u64>>,
    next: u64,
    root: u64,
    va: u64,
    pa: u64,
    flags: u64,
    va2: u64,
)
    requires
        tables_wf(tables, root, next),
        map_superpage_defined(tables, next, root, va),
        walk_defined(tables, root, va2),
        forall|k: u64, i: int| #[trigger]
            walk_reads(tables, root, va2, k, i) ==> !map_superpage_writes(
                tables,
                next,
                root,
                va,
                k,
                i,
            ),
    ensures
        ({
            let (t, n) = map_superpage_effect(tables, next, root, va, pa, flags);
            &&& walk_defined(t, root, va2)
            &&& translation(t, root, va2) == translation(tables, root, va2)
        }),
{
    let v2 = vpn_of(va, 2);
    let v1 = vpn_of(va, 1);
    let (t1, n1, c1) = descend(tables, next, root, v2);
    let t2 = write_entry(t1, c1, v1, leaf_pte(pa, flags));
    assert forall|k: u64, i: int| #[trigger]
        walk_reads(tables, root, va2, k, i) implies t2.contains_key(k) && t2[k][i] == tables[k][i] by {
        lemma_walk_reads_in_tables(tables, root, next, va2, k, i);
        lemma_descend(tables, root, next, root, v2, k, i);
    }
    lemma_walk_frame(tables, t2, root, va2);
}

/// Entry `i` of the root table is valid.
pub open spec fn root_points(t: Map<u64, Seq<u64>>, root: u64, i: int) -> bool {
    0 <= i < 512 && pte_valid(t[root][i])
}

/// Page number held in entry `i` of the root table: the level-1 table it
/// points to.
pub open spec fn l1_table(t: Map<u64, Seq<u64>>, root: u64, i: int) -> u64 {
    pte_ppn(t[root][i])
}

/// Entry `j` of the level-1 table below root entry `i` is a valid non-leaf,
/// that is, it points to a level-0 table.
pub open spec fn l1_points(t: Map<u64, Seq<u64>>, root: u64, i: int, j: int) -> bool {
    &&& root_points(t, root, i)
    &&& 0 <= j < 512
    &&& pte_valid(t[l1_table(t, root, i)][j])
    &&& !pte_is_leaf(t[l1_table(t, root, i)][j])
}

/// Page number held in entry `j` of the level-1 table below root entry `i`:
/// the level-0 table it points to.
pub open spec fn l0_table(t: Map<u64, Seq<u64>>, root: u64, i: int, j: int) -> u64 {
    pte_ppn(t[l1_table(t, root, i)][j])
}

/// The tables form a proper three-level tree below the root: every valid
/// root entry points to an existing level-1 table, every valid non-leaf
/// level-1 entry to an existing level-0 table, and no table is reached
/// twice or at two levels. This is what `new`, `map_page` outside
/// superpages and `map_superpage` with a leaf or invalid entry keep.
pub open spec fn sv39_tree(t: Map<u64, Seq<u64>>, root: u64, next: u64) -> bool {
    &&& tables_wf(t, root, next)
    &&& forall|i: int| #[trigger]
        root_points(t, root, i) ==> {
            &&& !pte_is_leaf(t[root][i])
            &&& t.contains_key(l1_table(t, root, i))
            &&& l1_table(t, root, i) != root
        }
    &&& forall|i: int, j: int| #[trigger]
        l1_points(t, root, i, j) ==> {
            &&& t.contains_key(l0_table(t, root, i, j))
            &&& l0_table(t, root, i, j) != root
        }
    &&& forall|i1: int, i2: int|
        #[trigger] root_points(t, root, i1) && #[trigger] root_points(t, root, i2) && i1 != i2
            ==> l1_table(t, root, i1) != l1_table(t, root, i2)
    &&& forall|i1: int, j1: int, i2: int|
        #[trigger] l1_points(t, root, i1, j1) && #[trigger] root_points(t, root, i2) ==> l0_table(
            t,
            root,
            i1,
            j1,
        ) != l1_table(t, root, i2)
    &&& forall|i1: int, j1: int, i2: int, j2: int|
        #[trigger] l1_points(t, root, i1, j1) && #[trigger] l1_points(t, root, i2, j2) && (i1
            != i2 || j1 != j2) ==> l0_table(t, root, i1, j1) != l0_table(t, root, i2, j2)
}

/// The page of `va` lies inside a superpage: its level-1 entry is a valid
/// leaf.
pub open spec fn in_superpage(t: Map<u64, Seq<u64>>, root: u64, va: u64) -> bool {
    let f = t[l1_table(t, root, vpn_of(va, 2) as int)][vpn_of(va, 1) as int];
    root_points(t, root, vpn_of(va, 2) as int) && pte_valid(f) && pte_is_leaf(f)
}

/// The table that `new` builds is a tree.
pub proof fn lemma_new_is_tree()
    ensures
        sv39_tree(Map::<u64, Seq<u64>>::empty().insert(0x80000, empty_table()), 0x80000, 0x80001),
{
    assert(0u64 & PTE_V == 0) by (bit_vector);
}

/// Pointing a table entry at page `n` and reading the page number back
/// gives `n`, for any page number below 2^54.
proof fn lemma_table_pte_ppn(n: u64)
    requires
        n < 0x40_0000_0000_0000,
    ensures
        pte_ppn(table_pte(n)) == n,
{
    assert(PTE_V == 1u64) by (bit_vector);
    assert(n < 0x40_0000_0000_0000 ==> ((n << 10u64) | PTE_V) >> 10u64 == n) by (bit_vector)
        requires
            PTE_V == 1u64,
    ;
}

/// The first step of a mapping keeps the tree: afterwards the root entry of
/// `va` points to the level-1 table that the step yields.
proof fn lemma_tree_descend_root(t: Map<u64, Seq<u64>>, root: u64, next: u64, v2: nat)
    requires
        sv39_tree(t, root, next),
        v2 < 512,
        next < 0x40_0000_0000_0000,
    ensures
        ({
            let (t1, n1, c1) = descend(t, next, root, v2);
            &&& sv39_tree(t1, root, n1)
            &&& n1 <= next + 1
            &&& root_points(t1, root, v2 as int)
            &&& l1_table(t1, root, v2 as int) == c1
        }),
{
    lemma_entry_kinds(next, 0, 0);
    lemma_table_pte_ppn(next);
    let (t1, n1, c1) = descend(t, next, root, v2);
    if !pte_valid(t[root][v2 as int]) {
        assert(t.contains_key(root));
        assert(t1[next] == empty_table());
        assert forall|i: int| 0 <= i < 512 && i != v2 implies #[trigger] t1[root][i] == t[root][i] by {}
        assert forall|i: int| #[trigger] root_points(t1, root, i) && i != v2 implies root_points(t, root, i)
            && l1_table(t1, root, i) == l1_table(t, root, i) && t1[l1_table(t, root, i)] == t[l1_table(t, root, i)] by {
            assert(root_points(t, root, i));
            assert(t.contains_key(l1_table(t, root, i)));
        }
        assert forall|i: int, j: int| #[trigger] l1_points(t1, root, i, j) implies i != v2 && l1_points(t, root, i, j)
            && l0_table(t1, root, i, j) == l0_table(t, root, i, j) by {
            if i == v2 {
                assert(t1[next][j] == 0u64);
                assert(0u64 & PTE_V == 0) by (bit_vector);
            } else {
                assert(root_points(t, root, i));
            }
        }
        assert forall|i: int, j: int| #[trigger] l1_points(t, root, i, j) implies t.contains_key(l0_table(t, root, i, j)) by {}
        assert(sv39_tree(t1, root, n1)) by {
            assert forall|k: u64| #[trigger] t1.contains_key(k) implies k < n1 && t1[k].len() == 512 by {
                if k != next && k != root {
                    assert(t.contains_key(k));
                }
            }
            assert forall|i: int| #[trigger] root_points(t1, root, i) implies {
                &&& !pte_is_leaf(t1[root][i])
                &&& t1.contains_key(l1_table(t1, root, i))
                &&& l1_table(t1, root, i) != root
            } by {
                if i != v2 {
                    assert(root_points(t, root, i));
                }
            }
            assert forall|i1: int, i2: int|
                #[trigger] root_points(t1, root, i1) && #[trigger] root_points(t1, root, i2) && i1 != i2
                implies l1_table(t1, root, i1) != l1_table(t1, root, i2) by {
                if i1 != v2 {
                    assert(root_points(t, root, i1));
                    assert(t.contains_key(l1_table(t, root, i1)));
                }
                if i2 != v2 {
                    assert(root_points(t, root, i2));
                    assert(t.contains_key(l1_table(t, root, i2)));
                }
            }
            assert forall|i1: int, j1: int, i2: int|
                #[trigger] l1_points(t1, root, i1, j1) && #[trigger] root_points(t1, root, i2)
                implies l0_table(t1, root, i1, j1) != l1_table(t1, root, i2) by {
                assert(l1_points(t, root, i1, j1));
                if i2 != v2 {
                    assert(root_points(t, root, i2));
                }
            }
            assert forall|i1: int, j1: int, i2: int, j2: int|
                #[trigger] l1_points(t1, root, i1, j1) && #[trigger] l1_points(t1, root, i2, j2) && (i1
                    != i2 || j1 != j2) implies l0_table(t1, root, i1, j1) != l0_table(t1, root, i2, j2) by {
                assert(l1_points(t, root, i1, j1));
                assert(l1_points(t, root, i2, j2));
            }
        }
    }
}

/// The second step of a 4 KiB mapping keeps the tree, when the level-1
/// entry of `va` is no leaf: afterwards that entry points to the level-0
/// table that the step yields.
proof fn lemma_tree_descend_l1(t: Map<u64, Seq<u64>>, root: u64, next: u64, v2: nat, v1: nat)
    requires
        sv39_tree(t, root, next),
        v1 < 512,
        root_points(t, root, v2 as int),
        !(pte_valid(t[l1_table(t, root, v2 as int)][v1 as int]) && pte_is_leaf(
            t[l1_table(t, root, v2 as int)][v1 as int],
        )),
        next < 0x40_0000_0000_0000,
    ensures
        ({
            let (t2, n2, c0) = descend(t, next, l1_table(t, root, v2 as int), v1);
            &&& sv39_tree(t2, root, n2)
            &&& n2 <= next + 1
            &&& t2[root] == t[root]
            &&& l1_points(t2, root, v2 as int, v1 as int)
            &&& l0_table(t2, root, v2 as int, v1 as int) == c0
        }),
{
    lemma_entry_kinds(next, 0, 0);
    lemma_table_pte_ppn(next);
    let c1 = l1_table(t, root, v2 as int);
    let (t2, n2, c0) = descend(t, next, c1, v1);
    assert(t.contains_key(c1));
    if !pte_valid(t[c1][v1 as int]) {
        assert(t.contains_key(root));
        assert(t2[next] == empty_table());
        assert(t2[root] == t[root]);
        assert forall|i: int| #[trigger] root_points(t2, root, i) && i != v2 implies root_points(t, root, i)
            && l1_table(t2, root, i) == l1_table(t, root, i) && t2[l1_table(t, root, i)] == t[l1_table(t, root, i)] by {
            assert(root_points(t, root, i));
            assert(t.contains_key(l1_table(t, root, i)));
        }
        assert forall|i: int, j: int| #[trigger] l1_points(t2, root, i, j) && (i != v2 || j != v1) implies l1_points(t, root, i, j)
            && l0_table(t2, root, i, j) == l0_table(t, root, i, j) by {
            assert(root_points(t, root, i));
        }
        assert forall|i: int, j: int| #[trigger] l1_points(t, root, i, j) implies t.contains_key(l0_table(t, root, i, j)) by {}
        assert(sv39_tree(t2, root, n2)) by {
            assert forall|k: u64| #[trigger] t2.contains_key(k) implies k < n2 && t2[k].len() == 512 by {
                if k != next && k != c1 {
                    assert(t.contains_key(k));
                }
            }
            assert forall|i: int| #[trigger] root_points(t2, root, i) implies {
                &&& !pte_is_leaf(t2[root][i])
                &&& t2.contains_key(l1_table(t2, root, i))
                &&& l1_table(t2, root, i) != root
            } by {
                assert(root_points(t, root, i));
            }
            assert forall|i: int, j: int| #[trigger] l1_points(t2, root, i, j) implies {
                &&& t2.contains_key(l0_table(t2, root, i, j))
                &&& l0_table(t2, root, i, j) != root
            } by {
                if i != v2 || j != v1 {
                    assert(l1_points(t, root, i, j));
                }
            }
            assert forall|i1: int, i2: int|
                #[trigger] root_points(t2, root, i1) && #[trigger] root_points(t2, root, i2) && i1 != i2
                implies l1_table(t2, root, i1) != l1_table(t2, root, i2) by {
                assert(root_points(t, root, i1));
                assert(root_points(t, root, i2));
            }
            assert forall|i1: int, j1: int, i2: int|
                #[trigger] l1_points(t2, root, i1, j1) && #[trigger] root_points(t2, root, i2)
                implies l0_table(t2, root, i1, j1) != l1_table(t2, root, i2) by {
                assert(root_points(t, root, i2));
                assert(t.contains_key(l1_table(t, root, i2)));
                if i1 != v2 || j1 != v1 {
                    assert(l1_points(t, root, i1, j1));
                }
            }
            assert forall|i1: int, j1: int, i2: int, j2: int|
                #[trigger] l1_points(t2, root, i1, j1) && #[trigger] l1_points(t2, root, i2, j2) && (i1
                    != i2 || j1 != j2) implies l0_table(t2, root, i1, j1) != l0_table(t2, root, i2, j2) by {
                if i1 != v2 || j1 != v1 {
                    assert(l1_points(t, root, i1, j1));
                    assert(t.contains_key(l0_table(t, root, i1, j1)));
                }
                if i2 != v2 || j2 != v1 {
                    assert(l1_points(t, root, i2, j2));
                    assert(t.contains_key(l0_table(t, root, i2, j2)));
                }
            }
        }
    }
}

/// Writing any value into a level-0 table keeps the tree: no walk follows
/// an entry of a level-0 table to another table.
proof fn lemma_tree_write_l0(t: Map<u64, Seq<u64>>, root: u64, next: u64, v2: int, v1: int, v0: nat, value: u64)
    requires
        sv39_tree(t, root, next),
        l1_points(t, root, v2, v1),
        v0 < 512,
    ensures
        ({
            let t3 = write_entry(t, l0_table(t, root, v2, v1), v0, value);
            &&& sv39_tree(t3, root, next)
            &&& t3[root] == t[root]
            &&& forall|i: int| #[trigger] root_points(t, root, i) ==> t3[l1_table(t, root, i)] == t[l1_table(t, root, i)]
        }),
{
    let c0 = l0_table(t, root, v2, v1);
    let t3 = write_entry(t, c0, v0, value);
    assert(root_points(t, root, v2));
    assert forall|i: int| #[trigger] root_points(t, root, i) implies t3[l1_table(t, root, i)] == t[l1_table(t, root, i)] by {
        assert(c0 != l1_table(t, root, i));
    }
    assert forall|i: int, j: int| #[trigger] l1_points(t3, root, i, j) == l1_points(t, root, i, j) by {
        if root_points(t, root, i) {
            assert(t3[l1_table(t, root, i)] == t[l1_table(t, root, i)]);
        }
    }
    assert forall|k: u64| #[trigger] t3.contains_key(k) implies k < next && t3[k].len() == 512 by {
        assert(t.contains_key(k));
    }
    assert forall|i: int| #[trigger] root_points(t3, root, i) == root_points(t, root, i) by {}
    assert forall|i: int, j: int| #[trigger] l1_points(t3, root, i, j) implies l0_table(t3, root, i, j)
        == l0_table(t, root, i, j) by {
        assert(root_points(t, root, i));
        assert(t3[l1_table(t, root, i)] == t[l1_table(t, root, i)]);
    }
    assert forall|i: int| #[trigger] root_points(t3, root, i) implies {
        &&& !pte_is_leaf(t3[root][i])
        &&& t3.contains_key(l1_table(t3, root, i))
        &&& l1_table(t3, root, i) != root
    } by {
        assert(root_points(t, root, i));
        assert(t.contains_key(l1_table(t, root, i)));
    }
    assert forall|i: int, j: int| #[trigger] l1_points(t3, root, i, j) implies {
        &&& t3.contains_key(l0_table(t3, root, i, j))
        &&& l0_table(t3, root, i, j) != root
    } by {
        assert(l1_points(t, root, i, j));
    }
    assert forall|i1: int, i2: int|
        #[trigger] root_points(t3, root, i1) && #[trigger] root_points(t3, root, i2) && i1 != i2
        implies l1_table(t3, root, i1) != l1_table(t3, root, i2) by {
        assert(root_points(t, root, i1));
        assert(root_points(t, root, i2));
    }
    assert forall|i1: int, j1: int, i2: int|
        #[trigger] l1_points(t3, root, i1, j1) && #[trigger] root_points(t3, root, i2)
        implies l0_table(t3, root, i1, j1) != l1_table(t3, root, i2) by {
        assert(l1_points(t, root, i1, j1));
        assert(root_points(t, root, i2));
    }
    assert forall|i1: int, j1: int, i2: int, j2: int|
        #[trigger] l1_points(t3, root, i1, j1) && #[trigger] l1_points(t3, root, i2, j2) && (i1
            != i2 || j1 != j2) implies l0_table(t3, root, i1, j1) != l0_table(t3, root, i2, j2) by {
        assert(l1_points(t, root, i1, j1));
        assert(l1_points(t, root, i2, j2));
    }
}

/// Writing into a level-1 table an entry that points to no table (a leaf
/// or an invalid entry) keeps the tree.
proof fn lemma_tree_write_l1(t: Map<u64, Seq<u64>>, root: u64, next: u64, v2: int, v1: nat, value: u64)
    requires
        sv39_tree(t, root, next),
        root_points(t, root, v2),
        v1 < 512,
        !(pte_valid(value) && !pte_is_leaf(value)),
    ensures
        ({
            let t2 = write_entry(t, l1_table(t, root, v2), v1, value);
            &&& sv39_tree(t2, root, next)
            &&& t2[root] == t[root]
        }),
{
    let c1 = l1_table(t, root, v2);
    let t2 = write_entry(t, c1, v1, value);
    assert(c1 != root && t.contains_key(c1));
    assert(t2[root] == t[root]);
    assert forall|i: int, j: int| #[trigger] l1_points(t2, root, i, j) implies l1_points(t, root, i, j)
        && l0_table(t2, root, i, j) == l0_table(t, root, i, j) by {
        assert(root_points(t, root, i));
        if i != v2 {
            assert(l1_table(t, root, i) != c1);
        }
    }
    assert forall|i: int, j: int| #[trigger] l1_points(t, root, i, j) implies t.contains_key(l0_table(t, root, i, j)) by {}
    assert forall|k: u64| #[trigger] t2.contains_key(k) implies k < next && t2[k].len() == 512 by {
        assert(t.contains_key(k));
    }
    assert forall|i: int| #[trigger] root_points(t2, root, i) implies {
        &&& !pte_is_leaf(t2[root][i])
        &&& t2.contains_key(l1_table(t2, root, i))
        &&& l1_table(t2, root, i) != root
    } by {
        assert(root_points(t, root, i));
        assert(t.contains_key(l1_table(t, root, i)));
    }
    assert forall|i1: int, i2: int|
        #[trigger] root_points(t2, root, i1) && #[trigger] root_points(t2, root, i2) && i1 != i2
        implies l1_table(t2, root, i1) != l1_table(t2, root, i2) by {
        assert(root_points(t, root, i1));
        assert(root_points(t, root, i2));
    }
    assert forall|i1: int, j1: int, i2: int|
        #[trigger] l1_points(t2, root, i1, j1) && #[trigger] root_points(t2, root, i2)
        implies l0_table(t2, root, i1, j1) != l1_table(t2, root, i2) by {
        assert(l1_points(t, root, i1, j1));
        assert(root_points(t, root, i2));
    }
    assert forall|i1: int, j1: int, i2: int, j2: int|
        #[trigger] l1_points(t2, root, i1, j1) && #[trigger] l1_points(t2, root, i2, j2) && (i1
            != i2 || j1 != j2) implies l0_table(t2, root, i1, j1) != l0_table(t2, root, i2, j2) by {
        assert(l1_points(t, root, i1, j1));
        assert(l1_points(t, root, i2, j2));
    }
}

/// In a tree, the entries that a walk reads lie in existing tables; the
/// root table is read only at the walk's root index, and a level-1 or
/// level-0 table only below the root entry (and level-1 entry) that the
/// walk followed.
proof fn lemma_tree_walk_reads(t: Map<u64, Seq<u64>>, root: u64, next: u64, va: u64, k: u64, i: int)
    requires
        sv39_tree(t, root, next),
        walk_reads(t, root, va, k, i),
    ensures
        t.contains_key(k),
        0 <= i < 512,
        k == root ==> i == vpn_of(va, 2),
        k != root ==> root_points(t, root, vpn_of(va, 2) as int),
        k != root && k == l1_table(t, root, vpn_of(va, 2) as int) ==> i == vpn_of(va, 1),
        k != root && k != l1_table(t, root, vpn_of(va, 2) as int) ==> {
            &&& l1_points(t, root, vpn_of(va, 2) as int, vpn_of(va, 1) as int)
            &&& k == l0_table(t, root, vpn_of(va, 2) as int, vpn_of(va, 1) as int)
            &&& i == vpn_of(va, 0)
        },
{
    let v2 = vpn_of(va, 2) as int;
    let v1 = vpn_of(va, 1) as int;
    if root_points(t, root, v2) {
        if l1_points(t, root, v2, v1) {
        }
    }
}

/// In a tree every walk meets only existing tables, so `translate` can be
/// called on any address.
pub proof fn lemma_tree_walk_defined(t: Map<u64, Seq<u64>>, root: u64, next: u64, va: u64)
    requires
        sv39_tree(t, root, next),
    ensures
        walk_defined(t, root, va),
{
    let v2 = vpn_of(va, 2) as int;
    let v1 = vpn_of(va, 1) as int;
    if root_points(t, root, v2) {
        if l1_points(t, root, v2, v1) {
        }
    }
}

/// The first step of a mapping changes no translation: it only hangs an
/// empty table below an invalid root entry.
proof fn lemma_tree_descend_root_frame(t: Map<u64, Seq<u64>>, root: u64, next: u64, v2: nat, va2: u64)
    requires
        sv39_tree(t, root, next),
        v2 < 512,
        next < 0x40_0000_0000_0000,
    ensures
        translation(descend(t, next, root, v2).0, root, va2) == translation(t, root, va2),
{
    let (t1, n1, c1) = descend(t, next, root, v2);
    lemma_entry_kinds(next, 0, 0);
    lemma_table_pte_ppn(next);
    lemma_tree_walk_defined(t, root, next, va2);
    lemma_tree_descend_root(t, root, next, v2);
    if !pte_valid(t[root][v2 as int]) {
        if vpn_of(va2, 2) == v2 {
            assert(t1[next][vpn_of(va2, 1) as int] == 0u64);
            assert(0u64 & PTE_V == 0) by (bit_vector);
        } else {
            assert forall|k: u64, i: int| #[trigger]
                walk_reads(t, root, va2, k, i) implies t1.contains_key(k) && t1[k][i] == t[k][i] by {
                lemma_tree_walk_reads(t, root, next, va2, k, i);
                lemma_descend(t, root, next, root, v2, k, i);
            }
            lemma_walk_frame(t, t1, root, va2);
        }
    }
}

/// The second step of a 4 KiB mapping changes no translation: it only
/// hangs an empty table below an invalid level-1 entry.
proof fn lemma_tree_descend_l1_frame(
    t: Map<u64, Seq<u64>>,
    root: u64,
    next: u64,
    v2: nat,
    v1: nat,
    va2: u64,
)
    requires
        sv39_tree(t, root, next),
        root_points(t, root, v2 as int),
        v1 < 512,
        next < 0x40_0000_0000_0000,
    ensures
        translation(descend(t, next, l1_table(t, root, v2 as int), v1).0, root, va2)
            == translation(t, root, va2),
{
    let c1 = l1_table(t, root, v2 as int);
    let (t2, n2, c0) = descend(t, next, c1, v1);
    lemma_entry_kinds(next, 0, 0);
    lemma_table_pte_ppn(next);
    lemma_tree_walk_defined(t, root, next, va2);
    assert(t.contains_key(c1) && c1 != root);
    if !pte_valid(t[c1][v1 as int]) {
        assert(t2[root] == t[root]);
        if vpn_of(va2, 2) == v2 && vpn_of(va2, 1) == v1 {
            assert(t2[next][vpn_of(va2, 0) as int] == 0u64);
            assert(0u64 & PTE_V == 0) by (bit_vector);
        } else {
            assert forall|k: u64, i: int| #[trigger]
                walk_reads(t, root, va2, k, i) implies t2.contains_key(k) && t2[k][i] == t[k][i] by {
                lemma_tree_walk_reads(t, root, next, va2, k, i);
                if k == c1 && k != root {
                    if k != l1_table(t, root, vpn_of(va2, 2) as int) {
                        assert(root_points(t, root, v2 as int));
                    } else {
                        assert(root_points(t, root, vpn_of(va2, 2) as int));
                    }
                }
                lemma_descend(t, root, next, c1, v1, k, i);
            }
            lemma_walk_frame(t, t2, root, va2);
        }
    }
}

/// Writing into the level-0 table below root entry `v2` and level-1 entry
/// `v1` changes the translation of no address outside the page it maps.
proof fn lemma_tree_write_l0_frame(
    t: Map<u64, Seq<u64>>,
    root: u64,
    next: u64,
    v2: int,
    v1: int,
    v0: nat,
    value: u64,
    va2: u64,
)
    requires
        sv39_tree(t, root, next),
        l1_points(t, root, v2, v1),
        v0 < 512,
        vpn_of(va2, 2) != v2 || vpn_of(va2, 1) != v1 || vpn_of(va2, 0) != v0,
    ensures
        translation(write_entry(t, l0_table(t, root, v2, v1), v0, value), root, va2)
            == translation(t, root, va2),
{
    let c0 = l0_table(t, root, v2, v1);
    let t3 = write_entry(t, c0, v0, value);
    lemma_tree_walk_defined(t, root, next, va2);
    assert(root_points(t, root, v2));
    assert forall|k: u64, i: int| #[trigger]
        walk_reads(t, root, va2, k, i) implies t3.contains_key(k) && t3[k][i] == t[k][i] by {
        lemma_tree_walk_reads(t, root, next, va2, k, i);
        if k != root {
            assert(root_points(t, root, vpn_of(va2, 2) as int));
            if k != l1_table(t, root, vpn_of(va2, 2) as int) {
                assert(l1_points(t, root, vpn_of(va2, 2) as int, vpn_of(va2, 1) as int));
            }
        }
    }
    lemma_walk_frame(t, t3, root, va2);
}

/// Writing into the level-1 table below root entry `v2` changes the
/// translation of no address outside the superpage it maps.
proof fn lemma_tree_write_l1_frame(
    t: Map<u64, Seq<u64>>,
    root: u64,
    next: u64,
    v2: int,
    v1: nat,
    value: u64,
    va2: u64,
)
    requires
        sv39_tree(t, root, next),
        root_points(t, root, v2),
        v1 < 512,
        vpn_of(va2, 2) != v2 || vpn_of(va2, 1) != v1,
    ensures
        translation(write_entry(t, l1_table(t, root, v2), v1, value), root, va2) == translation(
            t,
            root,
            va2,
        ),
{
    let c1 = l1_table(t, root, v2);
    let t2 = write_entry(t, c1, v1, value);
    lemma_tree_walk_defined(t, root, next, va2);
    assert forall|k: u64, i: int| #[trigger]
        walk_reads(t, root, va2, k, i) implies t2.contains_key(k) && t2[k][i] == t[k][i] by {
        lemma_tree_walk_reads(t, root, next, va2, k, i);
        if k != root {
            assert(root_points(t, root, vpn_of(va2, 2) as int));
            if k != l1_table(t, root, vpn_of(va2, 2) as int) {
                assert(l1_points(t, root, vpn_of(va2, 2) as int, vpn_of(va2, 1) as int));
            }
        }
    }
    lemma_walk_frame(t, t2, root, va2);
}

/// Addresses in different 4 KiB pages (bits 38..12) differ in some VPN
/// field.
proof fn lemma_vpns_differ(va: u64, va2: u64)
    requires
        !same_page(va, va2),
    ensures
        vpn_of(va2, 2) != vpn_of(va, 2) || vpn_of(va2, 1) != vpn_of(va, 1) || vpn_of(va2, 0)
            != vpn_of(va, 0),
{
    lemma_vpn_bits(va);
    lemma_vpn_bits(va2);
    assert((va2 >> 12u64) & 0x1ff == (va >> 12u64) & 0x1ff && (va2 >> 21u64) & 0x1ff == (va
        >> 21u64) & 0x1ff && (va2 >> 30u64) & 0x1ff == (va >> 30u64) & 0x1ff ==> (va
        % 0x80_0000_0000) / 0x1000 == (va2 % 0x80_0000_0000) / 0x1000) by (bit_vector);
}

/// Addresses in different 2 MiB superpages (bits 38..21) differ in VPN[2]
/// or VPN[1].
proof fn lemma_vpns_differ_superpage(va: u64, va2: u64)
    requires
        !same_superpage(va, va2),
    ensures
        vpn_of(va2, 2) != vpn_of(va, 2) || vpn_of(va2, 1) != vpn_of(va, 1),
{
    lemma_vpn_bits(va);
    lemma_vpn_bits(va2);
    assert((va2 >> 21u64) & 0x1ff == (va >> 21u64) & 0x1ff && (va2 >> 30u64) & 0x1ff == (va
        >> 30u64) & 0x1ff ==> (va % 0x80_0000_0000) / 0x20_0000 == (va2 % 0x80_0000_0000)
        / 0x20_0000) by (bit_vector);
}

/// In a tree, mapping a 4 KiB page that lies in no superpage can run (every
/// table it descends into exists), follows a clear path (so the read-back
/// law applies), and leaves a tree. The counter must stay below 2^54, the
/// largest page number an entry holds.
pub proof fn lemma_tree_map_page(
    t: Map<u64, Seq<u64>>,
    root: u64,
    next: u64,
    va: u64,
    pa: u64,
    flags: u64,
)
    requires
        sv39_tree(t, root, next),
        !in_superpage(t, root, va),
        next + 2 < 0x40_0000_0000_0000,
    ensures
        map_page_defined(t, next, root, va),
        mapping_path_clear(t, next, root, va, 0),
        ({
            let (t3, n3) = map_page_effect(t, next, root, va, pa, flags);
            sv39_tree(t3, root, n3) && n3 <= next + 2
        }),
{
    let v2 = vpn_of(va, 2);
    let v1 = vpn_of(va, 1);
    let v0 = vpn_of(va, 0);
    let (t1, n1, c1) = descend(t, next, root, v2);
    lemma_tree_descend_root(t, root, next, v2);
    if !pte_valid(t[root][v2 as int]) {
        lemma_table_pte_ppn(next);
        assert(t1[next][v1 as int] == 0u64);
        assert(0u64 & PTE_V == 0) by (bit_vector);
    }
    let (t2, n2, c0) = descend(t1, n1, c1, v1);
    lemma_tree_descend_l1(t1, root, n1, v2, v1);
    assert(root_points(t1, root, v2 as int));
    assert(l1_points(t2, root, v2 as int, v1 as int));
    assert(root_points(t2, root, v2 as int));
    lemma_tree_write_l0(t2, root, n2, v2 as int, v1 as int, v0, leaf_pte(pa, flags));
}

/// In a tree, mapping a 2 MiB superpage with flags that do not make a
/// pointer to a table (V clear, or one of R, W, X set) can run, follows a
/// clear path, and leaves a tree.
pub proof fn lemma_tree_map_superpage(
    t: Map<u64, Seq<u64>>,
    root: u64,
    next: u64,
    va: u64,
    pa: u64,
    flags: u64,
)
    requires
        sv39_tree(t, root, next),
        next + 1 < 0x40_0000_0000_0000,
        flags & PTE_V == 0 || flags & (PTE_R | PTE_W | PTE_X) != 0,
    ensures
        map_superpage_defined(t, next, root, va),
        mapping_path_clear(t, next, root, va, 1),
        ({
            let (t2, n2) = map_superpage_effect(t, next, root, va, pa, flags);
            sv39_tree(t2, root, n2) && n2 <= next + 1
        }),
{
    let v2 = vpn_of(va, 2);
    let v1 = vpn_of(va, 1);
    let (t1, n1, c1) = descend(t, next, root, v2);
    lemma_tree_descend_root(t, root, next, v2);
    assert(root_points(t1, root, v2 as int));
    lemma_entry_kinds(next, pa, flags);
    lemma_tree_write_l1(t1, root, n1, v2 as int, v1, leaf_pte(pa, flags));
}

/// In a tree, mapping a 4 KiB page that lies in no superpage leaves the
/// translation of every address outside that page as it was, including
/// addresses whose walk runs through the tables the mapping allocates.
pub proof fn lemma_tree_map_page_frame(
    t: Map<u64, Seq<u64>>,
    root: u64,
    next: u64,
    va: u64,
    pa: u64,
    flags: u64,
    va2: u64,
)
    requires
        sv39_tree(t, root, next),
        !in_superpage(t, root, va),
        next + 2 < 0x40_0000_0000_0000,
        !same_page(va, va2),
    ensures
        translation(map_page_effect(t, next, root, va, pa, flags).0, root, va2) == translation(
            t,
            root,
            va2,
        ),
{
    let v2 = vpn_of(va, 2);
    let v1 = vpn_of(va, 1);
    let v0 = vpn_of(va, 0);
    lemma_vpns_differ(va, va2);
    let (t1, n1, c1) = descend(t, next, root, v2);
    lemma_tree_descend_root(t, root, next, v2);
    lemma_tree_descend_root_frame(t, root, next, v2, va2);
    if !pte_valid(t[root][v2 as int]) {
        lemma_table_pte_ppn(next);
        assert(t1[next][v1 as int] == 0u64);
        assert(0u64 & PTE_V == 0) by (bit_vector);
    }
    let (t2, n2, c0) = descend(t1, n1, c1, v1);
    lemma_tree_descend_l1(t1, root, n1, v2, v1);
    lemma_tree_descend_l1_frame(t1, root, n1, v2, v1, va2);
    assert(l1_points(t2, root, v2 as int, v1 as int));
    lemma_tree_write_l0_frame(t2, root, n2, v2 as int, v1 as int, v0, leaf_pte(pa, flags), va2);
}

/// In a tree, mapping a 2 MiB superpage leaves the translation of every
/// address outside that superpage as it was, including addresses whose walk
/// runs through the table the mapping allocates.
pub proof fn lemma_tree_map_superpage_frame(
    t: Map<u64, Seq<u64>>,
    root: u64,
    next: u64,
    va: u64,
    pa: u64,
    flags: u64,
    va2: u64,
)
    requires
        sv39_tree(t, root, next),
        next + 1 < 0x40_0000_0000_0000,
        !same_superpage(va, va2),
    ensures
        translation(map_superpage_effect(t, next, root, va, pa, flags).0, root, va2)
            == translation(t, root, va2),
{
    let v2 = vpn_of(va, 2);
    let v1 = vpn_of(va, 1);
    lemma_vpns_differ_superpage(va, va2);
    let (t1, n1, c1) = descend(t, next, root, v2);
    lemma_tree_descend_root(t, root, next, v2);
    lemma_tree_descend_root_frame(t, root, next, v2, va2);
    lemma_tree_write_l1_frame(t1, root, n1, v2 as int, v1, leaf_pte(pa, flags), va2);
}

} // verus!
