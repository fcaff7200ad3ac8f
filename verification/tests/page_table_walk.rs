use oscamp::page_table_walk::{
    make_pa, va_to_offset, va_to_vpn, SingleLevelPageTable, TranslateResult, PAGE_SIZE,
    PTE_READ, PTE_VALID, PTE_WRITE,
};

#[test]
fn test_va_decompose() {
    assert_eq!(va_to_vpn(0x12345678), 0x12345);
    assert_eq!(va_to_offset(0x12345678), 0x678);
}

#[test]
fn test_va_decompose_zero() {
    assert_eq!(va_to_vpn(0), 0);
    assert_eq!(va_to_offset(0), 0);
}

#[test]
fn test_va_decompose_page_boundary() {
    assert_eq!(va_to_vpn(0x3000), 3);
    assert_eq!(va_to_offset(0x3000), 0);
}

#[test]
fn test_make_pa() {
    assert_eq!(make_pa(0x80, 0x100), 0x80 * 4096 + 0x100);
    assert_eq!(make_pa(0, 0), 0);
    assert_eq!(make_pa(1, 0), 4096);
}

#[test]
fn test_map_and_lookup() {
    let mut pt = SingleLevelPageTable::new(1024);
    pt.map(5, 100, PTE_VALID | PTE_READ);

    let entry = pt.lookup(5).expect("应该找到映射");
    assert_eq!(entry.ppn, 100);
    assert_eq!(entry.flags, PTE_VALID | PTE_READ);
}

#[test]
fn test_lookup_unmapped() {
    let pt = SingleLevelPageTable::new(1024);
    assert!(pt.lookup(0).is_none());
}

#[test]
fn test_unmap() {
    let mut pt = SingleLevelPageTable::new(1024);
    pt.map(10, 200, PTE_VALID | PTE_READ);
    assert!(pt.lookup(10).is_some());

    pt.unmap(10);
    assert!(pt.lookup(10).is_none());
}

#[test]
fn test_translate_basic() {
    let mut pt = SingleLevelPageTable::new(1024);
    pt.map(1, 0x80, PTE_VALID | PTE_READ);
    let result = pt.translate(0x1100, false);
    assert_eq!(result, TranslateResult::Translated(0x80100));
}

#[test]
fn test_translate_page_fault() {
    let pt = SingleLevelPageTable::new(1024);
    assert_eq!(pt.translate(0x5000, false), TranslateResult::PageFault);
}

#[test]
fn test_translate_write_permission() {
    let mut pt = SingleLevelPageTable::new(1024);
    pt.map(2, 0x90, PTE_VALID | PTE_READ);
    assert_eq!(
        pt.translate(0x2000, false),
        TranslateResult::Translated(0x90 * PAGE_SIZE as u32)
    );
    assert_eq!(
        pt.translate(0x2000, true),
        TranslateResult::PermissionDenied
    );
}

#[test]
fn test_translate_writable_page() {
    let mut pt = SingleLevelPageTable::new(1024);
    pt.map(3, 0xA0, PTE_VALID | PTE_READ | PTE_WRITE);
    assert_eq!(
        pt.translate(0x3456, true),
        TranslateResult::Translated(0xA0 * PAGE_SIZE as u32 + 0x456)
    );
}

#[test]
fn test_translate_invalid_entry() {
    let mut pt = SingleLevelPageTable::new(1024);
    pt.map(4, 0x50, PTE_READ);
    assert_eq!(pt.translate(0x4000, false), TranslateResult::PageFault);
}

#[test]
fn test_multiple_mappings() {
    let mut pt = SingleLevelPageTable::new(1024);
    pt.map(0, 0x10, PTE_VALID | PTE_READ);
    pt.map(1, 0x20, PTE_VALID | PTE_READ | PTE_WRITE);
    pt.map(2, 0x30, PTE_VALID | PTE_READ);

    assert_eq!(pt.translate(0x0FFF, false), TranslateResult::Translated(0x10FFF));
    assert_eq!(pt.translate(0x1000, true), TranslateResult::Translated(0x20000));
    assert_eq!(pt.translate(0x2800, false), TranslateResult::Translated(0x30800));
}

// Further cases.

#[test]
fn walk_va_decompose_top_address() {
    assert_eq!(va_to_vpn(0xFFFF_FFFF), 0xFFFFF);
    assert_eq!(va_to_offset(0xFFFF_FFFF), 0xFFF);
    assert_eq!(make_pa(0xFFFFF, 0xFFF), 0xFFFF_FFFF);
}

#[test]
fn walk_split_join_roundtrip() {
    for va in [0u32, 1, 0xFFF, 0x1000, 0x1234_5678, 0xFFFF_F000, 0xFFFF_FFFF] {
        assert_eq!(make_pa(va_to_vpn(va) as u32, va_to_offset(va)), va);
    }
}

#[test]
fn walk_lookup_out_of_range() {
    let pt = SingleLevelPageTable::new(4);
    assert!(pt.lookup(4).is_none());
    assert!(pt.lookup(1000).is_none());
}

#[test]
fn walk_translate_beyond_table_faults() {
    let mut pt = SingleLevelPageTable::new(2);
    pt.map(1, 0x7, PTE_VALID | PTE_READ | PTE_WRITE);
    assert_eq!(pt.translate(0x2000, false), TranslateResult::PageFault);
    assert_eq!(pt.translate(0x2000, true), TranslateResult::PageFault);
    assert_eq!(pt.translate(0x1001, true), TranslateResult::Translated(0x7001));
}

#[test]
fn walk_unmap_then_translate_faults() {
    let mut pt = SingleLevelPageTable::new(16);
    pt.map(3, 0x44, PTE_VALID | PTE_READ | PTE_WRITE);
    assert_eq!(pt.translate(0x3010, true), TranslateResult::Translated(0x44010));
    pt.unmap(3);
    assert_eq!(pt.translate(0x3010, false), TranslateResult::PageFault);
    assert_eq!(pt.translate(0x3010, true), TranslateResult::PageFault);
}

#[test]
fn walk_map_leaves_other_pages() {
    let mut pt = SingleLevelPageTable::new(16);
    pt.map(3, 0x44, PTE_VALID | PTE_READ);
    pt.map(4, 0x55, PTE_VALID | PTE_READ);
    pt.unmap(4);
    assert_eq!(pt.translate(0x3ABC, false), TranslateResult::Translated(0x44ABC));
    pt.map(3, 0x66, PTE_VALID | PTE_READ);
    assert_eq!(pt.translate(0x3ABC, false), TranslateResult::Translated(0x66ABC));
}

#[test]
fn walk_invalid_entry_beats_permission() {
    let mut pt = SingleLevelPageTable::new(16);
    pt.map(5, 0x10, PTE_WRITE);
    assert_eq!(pt.translate(0x5000, true), TranslateResult::PageFault);
}

#[test]
fn walk_write_only_entry_allows_reads() {
    let mut pt = SingleLevelPageTable::new(16);
    pt.map(6, 0x12, PTE_VALID);
    assert_eq!(pt.translate(0x6001, false), TranslateResult::Translated(0x12001));
    assert_eq!(pt.translate(0x6001, true), TranslateResult::PermissionDenied);
}

#[test]
fn walk_empty_table() {
    let pt = SingleLevelPageTable::new(0);
    assert!(pt.lookup(0).is_none());
    assert_eq!(pt.translate(0, false), TranslateResult::PageFault);
}
