use kmem::addr::{page_round_down, page_round_up, PhysicalAddr, VirtualAddr, MAX_VIRTUAL_ADDR};
use kmem::entry::{EntryKind, PTEPermission, PageTableEntry};
use kmem::addr::{PageOffset, Ppn};

#[test]
fn rounds_to_page_boundaries() {
    assert_eq!(page_round_down(0x1234), 0x1000);
    assert_eq!(page_round_down(0x2000), 0x2000);
    assert_eq!(page_round_up(0x1234), 0x2000);
    assert_eq!(page_round_up(0x2000), 0x2000);
    assert_eq!(page_round_up(0), 0);
    assert_eq!(VirtualAddr::new(0x5fff).page_round_down().0, 0x5000);
    assert_eq!(PhysicalAddr::new(0x5001).page_round_up().0, 0x6000);
}

#[test]
fn splits_virtual_address_into_indices() {
    let va = VirtualAddr::new(0x1_2345_6789);
    let vpns = va.virtual_page_numbers();
    assert_eq!(vpns[0].0, 86);
    assert_eq!(vpns[1].0, 282);
    assert_eq!(vpns[2].0, 4);
    assert_eq!(va.page_offset().0, 0x789);
}

#[test]
fn virtual_offsets_and_alignment() {
    let va = VirtualAddr::new(0x3000);
    assert!(va.is_align(0x1000));
    assert!(!va.is_align(0x2000));
    assert_eq!(va.add_offset(0x10).0, 0x3010);
    assert_eq!(va.offset_by(0x1000).0, 0x4000);
    assert_eq!(va.sub_offset(0x1000).0, 0x2000);
    assert_eq!(*va.get(), 0x3000);
    assert_eq!(VirtualAddr::new(MAX_VIRTUAL_ADDR).0, 0x40_0000_0000);
}

#[test]
fn physical_frame_number_and_offset() {
    let pa = PhysicalAddr::new(0x8020_1abc);
    assert_eq!(pa.ppn().get(), 0x80201);
    assert_eq!(pa.page_offset().0, 0xabc);
    assert!(!pa.is_align(4096));
    assert!(PhysicalAddr::new(0x8020_1000).is_align(4096));
}

#[test]
fn packs_entry_fields() {
    let perm = PTEPermission::valid()
        .union(PTEPermission::read())
        .union(PTEPermission::write());
    let e = PageTableEntry::new(Ppn(0x12345), 2, perm);
    assert_eq!(e.0, 0x48d1607);
    assert_eq!(e.ppn().get(), 0x12345);
    assert_eq!(e.perm().0, 0b0000_0111);
    assert!(e.is_valid() && e.is_read() && e.is_write() && !e.is_execute());
    assert_eq!(e.convert_to_physical_addr(&PageOffset(0x10)).0, 0x1234_5010);
    assert_eq!(e.addr_zero_offset().0, 0x1234_5000);
}

#[test]
fn permission_bits() {
    assert_eq!(PTEPermission::new().0, 0);
    assert_eq!(PTEPermission::valid().0, 1);
    assert_eq!(PTEPermission::read().0, 2);
    assert_eq!(PTEPermission::write().0, 4);
    assert_eq!(PTEPermission::execute().0, 8);
    assert_eq!(PTEPermission::user().0, 16);
    assert_eq!(PTEPermission::read().union(PTEPermission::execute()).0, 10);
}

#[test]
fn classifies_entries() {
    assert_eq!(PageTableEntry::new_zero().kind(), EntryKind::NotValid);
    assert!(PageTableEntry::new_zero().is_zero());
    // valid, no read/write/execute: a branch to the named table
    let branch = PageTableEntry::new(Ppn(0x80005), 0, PTEPermission::valid());
    assert_eq!(branch.kind(), EntryKind::Branch(PhysicalAddr(0x8000_5000)));
    // valid and executable only: a leaf
    let leaf = PageTableEntry::new(Ppn(0x80005), 0, PTEPermission::valid().union(PTEPermission::execute()));
    assert_eq!(leaf.kind(), EntryKind::Leaf);
    // valid and writable without read: reserved, read as not valid
    let reserved = PageTableEntry::new(Ppn(0x80005), 0, PTEPermission::valid().union(PTEPermission::write()));
    assert_eq!(reserved.kind(), EntryKind::NotValid);
    // read bit without valid bit
    let invalid = PageTableEntry::new(Ppn(0x80005), 0, PTEPermission::read());
    assert_eq!(invalid.kind(), EntryKind::NotValid);
}
