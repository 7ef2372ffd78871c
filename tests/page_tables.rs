use strail::page::{FrameAllocator, PAGE_SIZE};
use strail::page_table::{
    build_satp, ident_map_range, map_permission, unmap, virt_to_phys, MapError, PageBits,
    PageEntry, PageEntryBits, SatpMode, Table,
};

fn frames(pages: u64) -> FrameAllocator {
    FrameAllocator::init(0x8000_0000, pages * PAGE_SIZE)
}

#[test]
fn test_page_entry_bits() {
    assert_eq!(PageEntryBits::Dirty.val(), 128);
    assert_eq!(PageEntryBits::Access.val(), 64);
    assert_eq!(PageEntryBits::Global.val(), 32);
    assert_eq!(PageEntryBits::User.val(), 16);
    assert_eq!(PageEntryBits::Execute.val(), 8);
    assert_eq!(PageEntryBits::Write.val(), 4);
    assert_eq!(PageEntryBits::Read.val(), 2);
    assert_eq!(PageEntryBits::Valid.val(), 1);
}

#[test]
fn test_page_entry() {
    let mut entry = PageEntry { entry: 1 };
    assert_eq!(entry.get_entry(), 1);
    assert!(entry.is_branch());
    assert!(!entry.is_leaf());
    assert!(entry.is_valid());
    assert!(!entry.is_invalid());

    entry.set_entry(2);
    assert_eq!(entry.get_entry(), 2);
    assert!(entry.is_leaf());
    assert!(entry.is_invalid());
}

#[test]
fn permissions_map_to_user_leaf_bits() {
    assert_eq!(PageEntryBits::from(PageBits::ReadWrite), PageEntryBits::UserReadWrite);
    assert_eq!(PageEntryBits::from(PageBits::UserReadWrite), PageEntryBits::UserReadWrite);
    assert_eq!(PageEntryBits::from(PageBits::ReadExecute), PageEntryBits::UserReadExecute);
    assert_eq!(PageEntryBits::from(PageBits::UserReadExecute), PageEntryBits::UserReadExecute);
    assert_eq!(
        PageEntryBits::from(PageBits::UserReadWriteExecute),
        PageEntryBits::UserReadWriteExecute
    );
    assert_eq!(PageEntryBits::UserReadWrite.val(), 0x16);
    assert_eq!(PageEntryBits::UserReadExecute.val(), 0x1a);
    assert_eq!(PageEntryBits::UserReadWriteExecute.val(), 0x1e);
}

#[test]
fn map_then_translate_keeps_the_page_and_takes_the_offset() {
    let cases = [
        (PageBits::ReadWrite, 0x4000_1234u64, 0x8020_0000u64),
        (PageBits::ReadExecute, 0x1_2345_6789u64, 0x9000_5abcu64),
        (PageBits::UserReadWrite, 0x7f_ffff_f000u64, 0x8000_0000u64),
        (PageBits::UserReadExecute, 0x20_0000u64, 0xa123_4567u64),
        (PageBits::UserReadWriteExecute, 0x3fff_f123u64, 0x00ff_ffff_ffff_f000u64),
    ];
    for (bits, v, p) in cases {
        let mut mem = frames(16);
        let mut root = Table::new();
        assert_eq!(map_permission(&mut root, &mut mem, v, p, bits, 0), Ok(()));
        let got = virt_to_phys(&root, &mem, v).unwrap();
        assert_eq!(got & !0xfff, p & !0xfff);
        assert_eq!(got & 0xfff, v & 0xfff);
        // Two table frames were taken for the walk.
        assert_eq!(mem.page_count(), 2);
    }
}

#[test]
fn unmapped_addresses_do_not_translate() {
    let mut mem = frames(16);
    let mut root = Table::new();
    assert_eq!(virt_to_phys(&root, &mem, 0x1000), None);
    assert_eq!(map_permission(&mut root, &mut mem, 0x1000, 0x8000_0000, PageBits::ReadWrite, 0), Ok(()));
    // Same tables, another leaf slot.
    assert_eq!(virt_to_phys(&root, &mem, 0x2000), None);
    // Another root slot.
    assert_eq!(virt_to_phys(&root, &mem, 0x4000_0000), None);
}

#[test]
fn larger_leaves_pass_more_offset_bits() {
    let mut mem = frames(16);
    let mut root = Table::new();
    let bits = PageEntryBits::UserReadWrite.val();
    assert_eq!(strail::page_table::map(&mut root, &mut mem, 0x4000_0000, 0x8000_0000, bits, 2), Ok(()));
    assert_eq!(mem.page_count(), 0);
    assert_eq!(virt_to_phys(&root, &mem, 0x4123_4567), Some(0x8123_4567));
    assert_eq!(strail::page_table::map(&mut root, &mut mem, 0x20_0000, 0x8040_0000, bits, 1), Ok(()));
    assert_eq!(mem.page_count(), 1);
    assert_eq!(virt_to_phys(&root, &mem, 0x2f_fabc), Some(0x804f_fabc));
}

#[test]
fn mapping_below_a_large_leaf_is_refused() {
    let mut mem = frames(16);
    let mut root = Table::new();
    let bits = PageEntryBits::UserReadWrite.val();
    assert_eq!(strail::page_table::map(&mut root, &mut mem, 0x4000_0000, 0x8000_0000, bits, 2), Ok(()));
    assert_eq!(strail::page_table::map(&mut root, &mut mem, 0x4000_1000, 0x9000_0000, bits, 0), Err(MapError::LeafInPath));
}

#[test]
fn mapping_without_free_frames_fails() {
    let mut mem = frames(1);
    let mut root = Table::new();
    let r = map_permission(&mut root, &mut mem, 0x1000, 0x8000_0000, PageBits::ReadWrite, 0);
    assert_eq!(r, Err(MapError::OutOfFrames));
}

#[test]
fn unmap_releases_table_frames_only() {
    let mut mem = frames(16);
    let mut root = Table::new();
    let data = mem.alloc_pages(1);
    assert_eq!(map_permission(&mut root, &mut mem, 0x1000, data, PageBits::ReadWrite, 0), Ok(()));
    assert_eq!(map_permission(&mut root, &mut mem, 0x4000_0000, data, PageBits::ReadWrite, 0), Ok(()));
    assert_eq!(mem.page_count(), 5);
    assert_eq!(unmap(&root, &mut mem), Ok(()));
    // The data frame stays taken.
    assert_eq!(mem.page_count(), 1);
    mem.dealloc(data);
}

#[test]
fn ident_map_range_maps_each_page_onto_itself() {
    let mut mem = frames(32);
    let mut root = Table::new();
    let bits = PageEntryBits::UserReadWrite.val();
    assert_eq!(ident_map_range(&mut root, &mut mem, 0x8000_0123, 0x8000_3001, bits), Ok(()));
    for page in [0x8000_0000u64, 0x8000_1000, 0x8000_2000, 0x8000_3000] {
        assert_eq!(virt_to_phys(&root, &mem, page + 0x10), Some(page + 0x10));
    }
    assert_eq!(virt_to_phys(&root, &mem, 0x8000_4000), None);
}

#[test]
fn satp_packs_mode_asid_and_root_frame() {
    let satp = build_satp(SatpMode::Sv39, 0x1_2345, 0x8020_1000);
    assert_eq!(satp >> 60, 8);
    assert_eq!((satp >> 44) & 0xffff, 0x2345);
    assert_eq!(satp & 0xfff_ffff_ffff, 0x80201);
    assert_eq!(build_satp(SatpMode::Off, 0, 0), 0);
    assert_eq!(build_satp(SatpMode::Sv48, 0, 0) >> 60, 9);
}

#[test]
fn new_table_is_empty_of_mappings() {
    let t = Table::new();
    assert_eq!(t.len(), 512);
    assert!(!t.is_empty());
    assert!(t.entries.iter().all(|e| e.is_invalid()));
}

#[test]
fn second_page_in_a_region_reuses_the_tables() {
    let mut mem = frames(16);
    let mut root = Table::new();
    assert_eq!(map_permission(&mut root, &mut mem, 0x1000, 0x8000_0000, PageBits::ReadWrite, 0), Ok(()));
    assert_eq!(mem.page_count(), 2);
    assert_eq!(map_permission(&mut root, &mut mem, 0x2000, 0x9000_0000, PageBits::ReadExecute, 0), Ok(()));
    // No new table was needed, and the first mapping stands.
    assert_eq!(mem.page_count(), 2);
    assert_eq!(virt_to_phys(&root, &mem, 0x1234), Some(0x8000_0234));
    assert_eq!(virt_to_phys(&root, &mem, 0x2234), Some(0x9000_0234));
}

#[test]
fn mapping_leaves_other_translations_alone() {
    let mut mem = frames(16);
    let mut root = Table::new();
    let bits = PageEntryBits::UserReadWrite.val();
    assert_eq!(strail::page_table::map(&mut root, &mut mem, 0x4000_0000, 0x8000_0000, bits, 2), Ok(()));
    assert_eq!(map_permission(&mut root, &mut mem, 0x1000, 0x9000_0000, PageBits::ReadWrite, 0), Ok(()));
    assert_eq!(virt_to_phys(&root, &mem, 0x4000_0010), Some(0x8000_0010));
    assert_eq!(virt_to_phys(&root, &mem, 0x1010), Some(0x9000_0010));
}

#[test]
fn one_free_frame_is_not_enough_for_a_new_walk() {
    let mut mem = frames(2);
    let mut root = Table::new();
    let taken = mem.alloc_pages(1);
    assert!(taken != 0);
    let r = map_permission(&mut root, &mut mem, 0x1000, 0x8000_0000, PageBits::ReadWrite, 0);
    assert_eq!(r, Err(MapError::OutOfFrames));
    assert_eq!(virt_to_phys(&root, &mem, 0x1000), None);
}
