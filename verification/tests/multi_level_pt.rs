use oscamp::multi_level_pt::{
    PageTableNode, Sv39PageTable, TranslateResult, PAGE_SIZE, PTE_R, PTE_V, PTE_W, PTE_X,
    PT_ENTRIES,
};

#[test]
fn test_extract_vpn() {
    let va: u64 = 0x7FFFFFF000;
    assert_eq!(Sv39PageTable::extract_vpn(va, 2), 0x1FF);
    assert_eq!(Sv39PageTable::extract_vpn(va, 1), 0x1FF);
    assert_eq!(Sv39PageTable::extract_vpn(va, 0), 0x1FF);
}

#[test]
fn test_extract_vpn_simple() {
    let va: u64 = 0x1000;
    assert_eq!(Sv39PageTable::extract_vpn(va, 2), 0);
    assert_eq!(Sv39PageTable::extract_vpn(va, 1), 0);
    assert_eq!(Sv39PageTable::extract_vpn(va, 0), 1);
}

#[test]
fn test_extract_vpn_level2() {
    let va: u64 = 0x40000000;
    assert_eq!(Sv39PageTable::extract_vpn(va, 2), 1);
    assert_eq!(Sv39PageTable::extract_vpn(va, 1), 0);
    assert_eq!(Sv39PageTable::extract_vpn(va, 0), 0);
}

#[test]
fn test_map_and_translate_single() {
    let mut pt = Sv39PageTable::new();
    pt.map_page(0x1000, 0x80001000, PTE_V | PTE_R);

    let result = pt.translate(0x1000);
    assert_eq!(result, TranslateResult::Translated(0x80001000));
}

#[test]
fn test_translate_with_offset() {
    let mut pt = Sv39PageTable::new();
    pt.map_page(0x2000, 0x90000000, PTE_V | PTE_R | PTE_W);

    let result = pt.translate(0x2ABC);
    assert_eq!(result, TranslateResult::Translated(0x90000ABC));
}

#[test]
fn lib_test_translate_page_fault() {
    let pt = Sv39PageTable::new();
    assert_eq!(pt.translate(0x1000), TranslateResult::PageFault);
}

#[test]
fn lib_test_multiple_mappings() {
    let mut pt = Sv39PageTable::new();
    pt.map_page(0x0000_1000, 0x8000_1000, PTE_V | PTE_R);
    pt.map_page(0x0000_2000, 0x8000_5000, PTE_V | PTE_R | PTE_W);
    pt.map_page(0x0040_0000, 0x9000_0000, PTE_V | PTE_R);

    assert_eq!(pt.translate(0x1234), TranslateResult::Translated(0x80001234));
    assert_eq!(pt.translate(0x2000), TranslateResult::Translated(0x80005000));
    assert_eq!(pt.translate(0x400100), TranslateResult::Translated(0x90000100));
}

#[test]
fn test_map_overwrite() {
    let mut pt = Sv39PageTable::new();
    pt.map_page(0x1000, 0x80001000, PTE_V | PTE_R);
    assert_eq!(pt.translate(0x1000), TranslateResult::Translated(0x80001000));

    pt.map_page(0x1000, 0x90002000, PTE_V | PTE_R);
    assert_eq!(pt.translate(0x1000), TranslateResult::Translated(0x90002000));
}

#[test]
fn test_superpage_mapping() {
    let mut pt = Sv39PageTable::new();
    pt.map_superpage(0x200000, 0x80200000, PTE_V | PTE_R | PTE_W);

    assert_eq!(pt.translate(0x200000), TranslateResult::Translated(0x80200000));
    assert_eq!(pt.translate(0x200ABC), TranslateResult::Translated(0x80200ABC));
    assert_eq!(pt.translate(0x2FF000), TranslateResult::Translated(0x802FF000));
}

#[test]
fn test_superpage_and_normal_coexist() {
    let mut pt = Sv39PageTable::new();
    pt.map_superpage(0x0, 0x80000000, PTE_V | PTE_R);
    pt.map_page(0x40000000, 0x90001000, PTE_V | PTE_R);

    assert_eq!(pt.translate(0x100), TranslateResult::Translated(0x80000100));
    assert_eq!(pt.translate(0x40000000), TranslateResult::Translated(0x90001000));
}

// Further cases.

#[test]
fn sv39_new_root() {
    let pt = Sv39PageTable::new();
    assert_eq!(pt.root_ppn, 0x80000);
    let node = PageTableNode::new();
    assert_eq!(node.entries.len(), PT_ENTRIES);
    assert!(node.entries.iter().all(|e| *e == 0));
    assert_eq!(PAGE_SIZE * PT_ENTRIES, 0x200000);
}

#[test]
fn sv39_extract_vpn_higher_levels() {
    let va: u64 = 0x0123_4567_89AB_CDEF;
    assert_eq!(Sv39PageTable::extract_vpn(va, 0), ((va >> 12) & 0x1FF) as usize);
    assert_eq!(Sv39PageTable::extract_vpn(va, 3), ((va >> 39) & 0x1FF) as usize);
    assert_eq!(Sv39PageTable::extract_vpn(va, 5), ((va >> 57) & 0x1FF) as usize);
    assert_eq!(Sv39PageTable::extract_vpn(u64::MAX, 5), 0x7F);
}

#[test]
fn sv39_same_table_for_neighbouring_pages() {
    let mut pt = Sv39PageTable::new();
    pt.map_page(0x1000, 0x8000_1000, PTE_V | PTE_R);
    pt.map_page(0x3000, 0x8000_3000, PTE_V | PTE_X);
    assert_eq!(pt.translate(0x1FFF), TranslateResult::Translated(0x8000_1FFF));
    assert_eq!(pt.translate(0x3004), TranslateResult::Translated(0x8000_3004));
    assert_eq!(pt.translate(0x2000), TranslateResult::PageFault);
}

#[test]
fn sv39_page_offset_bits_ignored_in_pa() {
    let mut pt = Sv39PageTable::new();
    pt.map_page(0x5123, 0xA000_0FFF, PTE_V | PTE_R);
    assert_eq!(pt.translate(0x5010), TranslateResult::Translated(0xA000_0010));
}

#[test]
fn sv39_leaf_without_permission_faults() {
    let mut pt = Sv39PageTable::new();
    pt.map_page(0x7000, 0x8000_7000, PTE_V);
    assert_eq!(pt.translate(0x7000), TranslateResult::PageFault);
    pt.map_page(0x8000, 0x8000_8000, PTE_R);
    assert_eq!(pt.translate(0x8000), TranslateResult::PageFault);
}

#[test]
fn sv39_superpage_bounds() {
    let mut pt = Sv39PageTable::new();
    pt.map_superpage(0x40_0000, 0x8040_0000, PTE_V | PTE_R);
    assert_eq!(pt.translate(0x5F_FFFF), TranslateResult::Translated(0x805F_FFFF));
    assert_eq!(pt.translate(0x60_0000), TranslateResult::PageFault);
    assert_eq!(pt.translate(0x3F_FFFF), TranslateResult::PageFault);
}

#[test]
fn sv39_default_is_new() {
    let pt = Sv39PageTable::default();
    assert_eq!(pt.root_ppn, 0x80000);
    assert_eq!(pt.translate(0), TranslateResult::PageFault);
    let node = PageTableNode::default();
    assert!(node.entries.iter().all(|e| *e == 0));
}

#[test]
fn sv39_offset_carried_over() {
    let mut pt = Sv39PageTable::new();
    pt.map_page(0x9000, 0xC000_5000, PTE_V | PTE_R);
    pt.map_superpage(0x60_0000, 0x8060_0000, PTE_V | PTE_W);
    for va in [0x9000u64, 0x9ABC, 0x9FFF, 0x60_0123, 0x7F_FFFF] {
        match pt.translate(va) {
            TranslateResult::Translated(pa) => assert_eq!(pa & 0xFFF, va & 0xFFF),
            TranslateResult::PageFault => panic!("mapped address faulted"),
        }
    }
}

#[test]
fn sv39_high_address_bits_ignored() {
    let mut pt = Sv39PageTable::new();
    pt.map_page(0x1000, 0x8000_1000, PTE_V | PTE_R);
    let high: u64 = 1 << 45;
    assert_eq!(pt.translate(0x1234 | high), pt.translate(0x1234));
    assert_eq!(pt.translate(0x1234 | high), TranslateResult::Translated(0x8000_1234));
    assert_eq!(pt.translate(0x7F_8000_0000 | 0x1234), TranslateResult::PageFault);
}

#[test]
fn sv39_map_page_twice_changes_nothing() {
    let mut pt = Sv39PageTable::new();
    pt.map_page(0x3000, 0x8000_3000, PTE_V | PTE_R);
    pt.map_page(0x3000, 0x8000_3000, PTE_V | PTE_R);
    assert_eq!(pt.translate(0x3010), TranslateResult::Translated(0x8000_3010));
    assert_eq!(pt.translate(0x4010), TranslateResult::PageFault);
}

#[test]
fn sv39_invalid_leaf_unmaps_page() {
    let mut pt = Sv39PageTable::new();
    pt.map_page(0x5000, 0x8000_5000, PTE_V | PTE_R);
    pt.map_page(0x6000, 0x8000_6000, PTE_V | PTE_R);
    pt.map_page(0x5000, 0x8000_5000, PTE_R);
    assert_eq!(pt.translate(0x5000), TranslateResult::PageFault);
    assert_eq!(pt.translate(0x6000), TranslateResult::Translated(0x8000_6000));
}

#[test]
fn sv39_superpage_leaves_other_regions() {
    let mut pt = Sv39PageTable::new();
    pt.map_page(0x20_1000, 0x9000_1000, PTE_V | PTE_R);
    pt.map_superpage(0x40_0000, 0x8040_0000, PTE_V | PTE_R);
    assert_eq!(pt.translate(0x20_1000), TranslateResult::Translated(0x9000_1000));
    assert_eq!(pt.translate(0x40_0010), TranslateResult::Translated(0x8040_0010));
    assert_eq!(pt.translate(0x20_2000), TranslateResult::PageFault);
}
