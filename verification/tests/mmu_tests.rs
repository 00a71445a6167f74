use lib::error::Error;
use lib::heap::kern_allocator::KernAlloctor;
use lib::mmu::addr_parts::{AddrParts, Offset};
use lib::mmu::entry::{Entry, EntryKind};
use lib::mmu::error::MapError;
use lib::mmu::l2entry::{L2Entry, L2EntryType};
use lib::mmu::page_permission::{translate_perm, PagePerm};
use lib::mmu::page_table::PageTable;
use lib::mmu::translation_table::{AddressSpace, L1Table, TranslationTable};
use lib::phys::Phys;

fn heap() -> KernAlloctor {
    KernAlloctor::new(0x4800_0000, 0x4900_0000)
}

fn kernel_table() -> TranslationTable {
    TranslationTable::new(L1Table::zeroed(), AddressSpace::Kernel)
}

fn user_table() -> TranslationTable {
    TranslationTable::new(L1Table::zeroed(), AddressSpace::User)
}

#[test]
fn map_then_translate_pages() {
    let mut heap = heap();
    let mut table = kernel_table();
    table.map(0x8010_0000, 0x1234_5000, 0x2000, PagePerm::KernOnly, true, true, &mut heap).unwrap();
    assert_eq!(table.virt_to_phys(0x8010_0004), Some(0x1234_5004));
    assert_eq!(table.virt_to_phys(0x8010_1ff0), Some(0x1234_6ff0));
    assert_eq!(table.virt_to_phys(0x8010_2000), None);
    assert_eq!(table.virt_to_phys(0x8000_0000), None);
}

#[test]
fn map_twice_is_remap() {
    let mut heap = heap();
    let mut table = kernel_table();
    table.map(0x8010_0000, 0x1234_5000, 0x1000, PagePerm::KernOnly, true, true, &mut heap).unwrap();
    assert_eq!(
        table.map(0x8010_0000, 0x2000_0000, 0x1000, PagePerm::KernOnly, true, true, &mut heap),
        Err(Error::Remap)
    );
    assert_eq!(table.virt_to_phys(0x8010_0000), Some(0x1234_5000));
}

#[test]
fn map_outside_space_is_out_of_range() {
    let mut heap = heap();
    let mut table = kernel_table();
    assert_eq!(
        table.map(0x1000, 0x1234_5000, 0x1000, PagePerm::KernOnly, true, true, &mut heap),
        Err(Error::OutOfRange)
    );
}

#[test]
fn map_sections_translate() {
    let mut table = kernel_table();
    table.map_sections(0x9000_0000, 0x4000_0000, 2, PagePerm::KernOnly).unwrap();
    assert_eq!(table.virt_to_phys(0x9000_0123), Some(0x4000_0123));
    assert_eq!(table.virt_to_phys(0x9010_0005), Some(0x4010_0005));
    assert_eq!(table.virt_to_phys(0x9020_0000), None);
    assert_eq!(table.map_sections(0x9010_0000, 0x5000_0000, 1, PagePerm::KernOnly), Err(Error::Remap));
}

#[test]
fn get_range_and_offsets() {
    let table = kernel_table();
    assert_eq!(table.get_range(), 0x8000_0000..0xffff_ffff);
    assert_eq!(table.get_offset(0x8000_1000).unwrap().0, 0x1000);
    assert!(table.get_offset(0x1000).is_err());
    assert_eq!(table.get_virt(Offset(0x2000)), 0x8000_2000);
    assert_eq!(table.offset_to_virt(Offset(0x3000)), 0x8000_3000);
    let user = user_table();
    assert_eq!(user.get_range(), 0..0x7fff_ffff);
    assert_eq!(user.get_virt(Offset(0x2000)), 0x2000);
}

#[test]
fn find_hole_in_empty_table() {
    let table = kernel_table();
    assert_eq!(table.find_hole(0x2000).unwrap().0, 0x4000);
}

#[test]
fn seek_hole_and_mapped() {
    let mut heap = heap();
    let mut table = kernel_table();
    table.map(0x8000_1000, 0x1000_0000, 0x1000, PagePerm::KernOnly, true, true, &mut heap).unwrap();
    assert_eq!(table.seek_hole(Offset(0x1000)).unwrap().0, 0x2000);
    assert_eq!(table.seek_hole(Offset(0x0)).unwrap().0, 0x0);
    assert_eq!(table.seek_mapped(Offset(0x0), 0x10_0000).map(|o| o.0), Some(0x1000));
}

#[test]
fn map_memory_reads_back() {
    let mut heap = heap();
    let mut table = kernel_table();
    let phys = Phys::<[u8]>::from_raw_parts(0x1234_5678, 0x100);
    let (virt, len) = table.map_memory(phys, PagePerm::KernOnly, &mut heap).unwrap();
    assert_eq!(len, 0x100);
    assert_eq!(virt % 0x1000, 0x678);
    assert_eq!(table.virt_to_phys(virt), Some(0x1234_5678));
    assert_eq!(table.virt_to_phys(virt + 0xff), Some(0x1234_5777));
}

#[test]
fn map_memory_keeps_earlier_mappings() {
    let mut heap = heap();
    let mut table = kernel_table();
    let (first, _) = table
        .map_memory(Phys::<[u8]>::from_raw_parts(0x1000_0000, 0x1000), PagePerm::KernOnly, &mut heap)
        .unwrap();
    let (second, _) = table
        .map_memory(Phys::<[u8]>::from_raw_parts(0x2000_0000, 0x1000), PagePerm::KernOnly, &mut heap)
        .unwrap();
    assert_ne!(first, second);
    assert_eq!(table.virt_to_phys(first), Some(0x1000_0000));
    assert_eq!(table.virt_to_phys(second), Some(0x2000_0000));
}

#[test]
fn map_stack_leaves_guard_page() {
    let mut heap = heap();
    let mut table = kernel_table();
    let bottom = table
        .map_stack(Phys::<[u8]>::from_raw_parts(0x3000_0000, 0x1000), PagePerm::KernOnly, &mut heap)
        .unwrap();
    assert_eq!(table.virt_to_phys(bottom), Some(0x3000_0000));
    assert_eq!(table.virt_to_phys(bottom - 0x1000), None);
}

#[test]
fn map_device_keeps_offset() {
    let mut heap = heap();
    let mut table = kernel_table();
    let virt = table.map_device(Phys::<u32>::from(0x0a00_3e10), &mut heap).unwrap();
    assert_eq!(virt % 0x1000, 0xe10);
    assert_eq!(table.virt_to_phys(virt), Some(0x0a00_3e10));
}

#[test]
fn unmap_all_releases_tables() {
    let mut heap = heap();
    let mut table = user_table();
    table.map(0x1000, 0x1000_0000, 0x1000, PagePerm::KernOnly, true, true, &mut heap).unwrap();
    table.map(0x40_0000, 0x1000_1000, 0x1000, PagePerm::KernOnly, true, true, &mut heap).unwrap();
    let released = table.unmap_all();
    assert_eq!(released.len(), 4);
    assert_eq!(released[0], 0x1000_0000);
    assert_eq!(released[2], 0x1000_1000);
    assert_ne!(released[1], released[3]);
    assert_eq!(table.virt_to_phys(0x1000), None);
    assert_eq!(table.virt_to_phys(0x40_0000), None);
}

#[test]
fn page_table_maps_user_memory() {
    let mut heap = heap();
    let mut pt = PageTable::new(&mut heap).unwrap();
    let base = pt.apply_user();
    assert_eq!(base % 8192, 0);
    let (virt, len) = pt
        .map_memory(Phys::<[u8]>::from_raw_parts(0x1000_0000, 0x1000), PagePerm::UserRo, &mut heap)
        .unwrap();
    assert_eq!(len, 0x1000);
    assert!(virt < 0x8000_0000);
    assert_eq!(pt.apply_user(), base);
}

#[test]
fn page_table_alloc_page() {
    let mut heap = heap();
    let mut pt = PageTable::new(&mut heap).unwrap();
    let (kernel_virt, len) = pt.alloc_page(0x5000, PagePerm::UserRw, &mut heap).unwrap();
    assert_eq!(len, 4096);
    assert_eq!(kernel_virt % 4096, 0);
}

#[test]
fn page_table_out_of_memory() {
    let mut heap = KernAlloctor::new(0x4800_0000, 0x4800_1000);
    assert!(matches!(PageTable::new(&mut heap), Err(Error::OutOfMem)));
}

#[test]
fn entry_kinds() {
    let mut entry = Entry { value: 0 };
    assert!(matches!(entry.get_type(), EntryKind::Unmapped));
    assert!(!entry.is_mapped());
    entry.set_section(0x4010_0000, PagePerm::KernOnly, 0);
    assert!(entry.is_mapped());
    match entry.get_type() {
        EntryKind::Section(p) => assert_eq!(p.addr(), 0x4010_0000),
        _ => panic!("expected a section"),
    }
    assert_eq!(entry.as_section().addr(), 0x4010_0000);
    assert!(!entry.is_supersection());
    entry.unmap();
    assert!(matches!(entry.get_type(), EntryKind::Unmapped));
}

#[test]
fn l2_entry_phys_and_type() {
    let mut e = L2Entry { value: 0 };
    assert_eq!(e.get_type(), L2EntryType::Unmapped);
    assert_eq!(e.get_phys(), None);
    e.set_phys(0x1234_5000, L2EntryType::Small);
    e.set_perm(PagePerm::KernOnly);
    assert_eq!(e.get_type(), L2EntryType::Small);
    assert_eq!(e.get_phys(), Some(0x1234_5000));
    e.unmap();
    assert_eq!(e.get_type(), L2EntryType::Unmapped);
}

#[test]
fn perm_translation() {
    assert_eq!(translate_perm(PagePerm::NoOne), 0);
    assert_eq!(PagePerm::KernOnly.translate(), translate_perm(PagePerm::KernOnly));
    assert_ne!(translate_perm(PagePerm::UserRo), translate_perm(PagePerm::UserRw));
}

#[test]
fn addr_parts_split() {
    let parts = AddrParts::from(Offset(0x0123_4567));
    assert_eq!(parts.l1_index(), 0x12);
    assert_eq!(parts.l2_index(), 0x34);
    assert_eq!(parts.page_offset(), 0x567);
    assert_eq!(parts.section_offset(), 0x34567);
    assert_eq!(parts.addr(), 0x0123_4567);
    assert_eq!(Offset(0x3000).sub(Offset(0x1000)), 0x2000);
}

#[test]
fn map_error_into_error() {
    assert_eq!(MapError::Remap.into_error(), Error::Remap);
    assert_eq!(MapError::AllocError.into_error(), Error::OutOfMem);
}

#[test]
fn user_permission_bits_read_back_as_large_page() {
    let mut heap = heap();
    let mut table = kernel_table();
    table.map(0x8010_0000, 0x1234_5000, 0x1000, PagePerm::UserRw, true, true, &mut heap).unwrap();
    assert_eq!(table.virt_to_phys(0x8010_0004), Some(0x1234_0004));
    table.map(0x8020_0000, 0x1234_5000, 0x1000, PagePerm::NoOne, true, true, &mut heap).unwrap();
    assert_eq!(table.virt_to_phys(0x8020_0004), None);
}

#[test]
fn sections_only_into_free_entries() {
    let mut heap = heap();
    let mut table = kernel_table();
    table.map(0x8010_0000, 0x1234_5000, 0x1000, PagePerm::KernOnly, true, true, &mut heap).unwrap();
    assert_eq!(table.map_sections(0x8000_0000, 0x4000_0000, 2, PagePerm::KernOnly), Err(Error::Remap));
    assert_eq!(table.virt_to_phys(0x8000_0010), Some(0x4000_0010));
    assert_eq!(table.virt_to_phys(0x8010_0000), Some(0x1234_5000));
    assert_eq!(table.map_sections(0x7ff0_0000, 0x4000_0000, 1, PagePerm::KernOnly), Err(Error::OutOfRange));
}

#[test]
fn page_table_alloc_page_errors() {
    let mut heap = KernAlloctor::new(0x4800_0000, 0x4800_3000);
    let mut pt = PageTable::new(&mut heap).unwrap();
    assert_eq!(pt.alloc_page(0x5000, PagePerm::UserRw, &mut heap), Err(Error::OutOfMem));
    let mut heap = heap_big();
    let mut pt = PageTable::new(&mut heap).unwrap();
    pt.alloc_page(0x5000, PagePerm::KernOnly, &mut heap).unwrap();
    assert_eq!(pt.alloc_page(0x5000, PagePerm::KernOnly, &mut heap), Err(Error::Remap));
}

fn heap_big() -> KernAlloctor {
    KernAlloctor::new(0x4800_0000, 0x4900_0000)
}

fn tiny_heap() -> KernAlloctor {
    KernAlloctor::new(0x4800_0000, 0x4800_0100)
}

#[test]
fn map_stack_without_room_for_table() {
    let mut heap = tiny_heap();
    let mut table = kernel_table();
    let r = table.map_stack(Phys::<[u8]>::from_raw_parts(0x3000_0000, 0x1000), PagePerm::KernOnly, &mut heap);
    assert!(matches!(r, Err(Error::OutOfMem)));
}

#[test]
fn map_device_without_room_for_table() {
    let mut heap = tiny_heap();
    let mut table = kernel_table();
    let r = table.map_device(Phys::<u32>::from(0x0a00_3e10), &mut heap);
    assert!(matches!(r, Err(Error::OutOfMem)));
}

#[test]
fn map_memory_without_room_for_table() {
    let mut heap = tiny_heap();
    let mut table = kernel_table();
    let r = table.map_memory(Phys::<[u8]>::from_raw_parts(0x1000_0000, 0x1000), PagePerm::KernOnly, &mut heap);
    assert!(matches!(r, Err(Error::OutOfMem)));
}

#[test]
fn map_stack_with_one_table_of_room() {
    let mut heap = heap();
    let mut table = kernel_table();
    let first = table
        .map_stack(Phys::<[u8]>::from_raw_parts(0x3000_0000, 0x1000), PagePerm::KernOnly, &mut heap)
        .unwrap();
    let mut tiny = tiny_heap();
    let second = table
        .map_stack(Phys::<[u8]>::from_raw_parts(0x3100_0000, 0x1000), PagePerm::KernOnly, &mut tiny)
        .unwrap();
    assert!(second > first);
    assert_eq!(table.virt_to_phys(second), Some(0x3100_0000));
}

#[test]
fn page_table_starts_unmapped() {
    let mut heap = heap();
    let mut pt = PageTable::new(&mut heap).unwrap();
    let table = pt.as_translation_table();
    for i in 0..2048usize {
        assert!(matches!(table.get_l1(i).get_type(), EntryKind::Unmapped));
    }
}

#[test]
fn map_sections_stops_at_end_of_space() {
    let mut table = kernel_table();
    assert_eq!(table.map_sections(0xffe0_0000, 0x4000_0000, 3, PagePerm::KernOnly), Err(Error::OutOfRange));
    assert_eq!(table.virt_to_phys(0xffe0_0010), Some(0x4000_0010));
    assert_eq!(table.virt_to_phys(0xfff0_0010), Some(0x4010_0010));
}

#[test]
fn map_device_over_mapped_page_is_remap() {
    let mut heap = heap();
    let mut table = kernel_table();
    table.map(0x8000_1000, 0x2000_0000, 0x1000, PagePerm::KernOnly, true, true, &mut heap).unwrap();
    let r = table.map_device(Phys::<u32>::from(0x0a00_0ffe), &mut heap);
    assert!(matches!(r, Err(Error::Remap)));
    assert_eq!(table.virt_to_phys(0x8000_0004), Some(0x0a00_0004));
    assert_eq!(table.virt_to_phys(0x8000_1004), Some(0x2000_0004));
}

#[test]
fn replace_section_overrides_entry() {
    let mut heap = heap();
    let mut table = kernel_table();
    table.map_sections(0x9000_0000, 0x4000_0000, 1, PagePerm::KernOnly).unwrap();
    table.replace_section(0x9000_0000, 0x5000_0000);
    assert_eq!(table.virt_to_phys(0x9000_0123), Some(0x5000_0123));
    table.map(0x9100_0000, 0x2000_0000, 0x1000, PagePerm::KernOnly, true, true, &mut heap).unwrap();
    table.replace_section(0x9100_0000, 0x6000_0000);
    assert_eq!(table.virt_to_phys(0x9100_0010), Some(0x6000_0010));
    assert_eq!(table.virt_to_phys(0x9000_0123), Some(0x5000_0123));
}

#[test]
fn map_onto_mapped_page_is_remap_without_tables() {
    let mut heap = heap();
    let mut table = kernel_table();
    table.map(0x8000_1000, 0x2000_0000, 0x1000, PagePerm::KernOnly, true, true, &mut heap).unwrap();
    let mut tiny = tiny_heap();
    let r = table.map(0x8000_0000, 0x3000_0000, 0x2000, PagePerm::KernOnly, true, true, &mut tiny);
    assert_eq!(r, Err(Error::Remap));
    assert_eq!(table.virt_to_phys(0x8000_0004), Some(0x3000_0004));
    assert_eq!(table.virt_to_phys(0x8000_1004), Some(0x2000_0004));
}

#[test]
fn map_needing_table_first_is_out_of_memory() {
    let mut heap = heap();
    let mut table = kernel_table();
    table.map(0x8010_1000, 0x2000_0000, 0x1000, PagePerm::KernOnly, true, true, &mut heap).unwrap();
    let mut tiny = tiny_heap();
    let r = table.map(0x800f_f000, 0x3000_0000, 0x3000, PagePerm::KernOnly, true, true, &mut tiny);
    assert_eq!(r, Err(Error::OutOfMem));
}
