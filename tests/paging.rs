use kmem::addr::{PhysicalAddr, VirtualAddr};
use kmem::entry::PTEPermission;
use kmem::kalloc::{init_page_allocator, Exhausted};
use kmem::page_table::{PageTable, TranslationFault};
use kmem::physical_memory_manager::MyMemoryRegion;
use kmem::vm::{init_paging, new_user_page_table, TRAMPOLINE, TRAPFRAME};

fn rw() -> PTEPermission {
    PTEPermission::read().union(PTEPermission::write())
}

#[test]
fn mapped_pages_translate_with_offset() {
    let mut fa = init_page_allocator(MyMemoryRegion { address: 0x8000_0000, size: 4096 * 16 });
    let mut pt = PageTable::new(&mut fa).unwrap();
    let va = 0x4000_0000u64;
    let pa = 0x8800_0000u64;
    assert_eq!(pt.map_pages(&mut fa, VirtualAddr::new(va), PhysicalAddr::new(pa), 3 * 4096, rw(), 0), Ok(()));
    for k in 0..3u64 {
        for o in [0u64, 1, 0x7ff, 0xfff] {
            let (got, perm) = pt.get_phys_addr_perm(&fa, &VirtualAddr::new(va + k * 4096 + o)).unwrap();
            assert_eq!(got.0, pa + k * 4096 + o);
            assert_eq!(perm.0, 0b0000_0111);
        }
    }
    assert_eq!(pt.get_phys_addr_perm(&fa, &VirtualAddr::new(va + 3 * 4096)), Err(TranslationFault));
}

#[test]
fn partial_page_size_covers_whole_pages() {
    let mut fa = init_page_allocator(MyMemoryRegion { address: 0x8000_0000, size: 4096 * 16 });
    let mut pt = PageTable::new(&mut fa).unwrap();
    let exec = PTEPermission::read().union(PTEPermission::execute());
    assert_eq!(pt.map_pages(&mut fa, VirtualAddr::new(0x8020_0000), PhysicalAddr::new(0x8020_0000), 4097, exec, 0), Ok(()));
    let (a, p) = pt.get_phys_addr_perm(&fa, &VirtualAddr::new(0x8020_1abc)).unwrap();
    assert_eq!(a.0, 0x8020_1abc);
    assert_eq!(p.0, 0b0000_1011);
    assert_eq!(pt.get_phys_addr_perm(&fa, &VirtualAddr::new(0x8020_2000)), Err(TranslationFault));
}

#[test]
fn empty_table_faults_everywhere() {
    let mut fa = init_page_allocator(MyMemoryRegion { address: 0x8000_0000, size: 4096 });
    let pt = PageTable::new(&mut fa).unwrap();
    assert_eq!(pt.root, 0x8000_0000);
    assert_eq!(pt.get_phys_addr_perm(&fa, &VirtualAddr::new(0)), Err(TranslationFault));
    assert_eq!(pt.get_phys_addr_perm(&fa, &VirtualAddr::new(0x1234_5678)), Err(TranslationFault));
}

#[test]
fn no_frame_for_a_root() {
    let mut fa = init_page_allocator(MyMemoryRegion { address: 0x8000_0000, size: 0 });
    assert!(matches!(PageTable::new(&mut fa), Err(Exhausted)));
}

#[test]
fn mapping_stops_when_tables_cannot_be_had() {
    let mut fa = init_page_allocator(MyMemoryRegion { address: 0x8000_0000, size: 4096 * 2 });
    let mut pt = PageTable::new(&mut fa).unwrap();
    let r = pt.map_pages(&mut fa, VirtualAddr::new(0x1000), PhysicalAddr::new(0x9000_0000), 4096, rw(), 0);
    assert_eq!(r, Err(Exhausted));
    assert_eq!(pt.get_phys_addr_perm(&fa, &VirtualAddr::new(0x1000)), Err(TranslationFault));
}

#[test]
fn neighbouring_pages_share_tables() {
    let mut fa = init_page_allocator(MyMemoryRegion { address: 0x8000_0000, size: 4096 * 3 });
    let mut pt = PageTable::new(&mut fa).unwrap();
    // root plus two tables exhaust the region; a second mapping in the same
    // 2 MiB span needs no new table
    assert_eq!(pt.map_pages(&mut fa, VirtualAddr::new(0x10_0000), PhysicalAddr::new(0x9000_0000), 4096, rw(), 0), Ok(()));
    assert_eq!(fa.kalloc(), Err(Exhausted));
    assert_eq!(pt.map_pages(&mut fa, VirtualAddr::new(0x10_1000), PhysicalAddr::new(0x9000_5000), 4096, rw(), 0), Ok(()));
    assert_eq!(pt.get_phys_addr_perm(&fa, &VirtualAddr::new(0x10_0010)).unwrap().0 .0, 0x9000_0010);
    assert_eq!(pt.get_phys_addr_perm(&fa, &VirtualAddr::new(0x10_1010)).unwrap().0 .0, 0x9000_5010);
}

#[test]
fn walk_alloc_builds_missing_tables() {
    let mut fa = init_page_allocator(MyMemoryRegion { address: 0x8000_0000, size: 4096 * 4 });
    let mut pt = PageTable::new(&mut fa).unwrap();
    let slot = pt.walk_alloc(&mut fa, &VirtualAddr::new(0x4020_3000)).unwrap();
    // root at the first frame, then one table per level below it; index 3 of the innermost
    assert_eq!(slot, 0x8000_2000 + 8 * 3);
    assert_eq!(pt.walk_alloc(&mut fa, &VirtualAddr::new(0x4020_3000)), Ok(slot));
    assert_eq!(fa.kalloc(), Ok(PhysicalAddr(0x8000_3000)));
}

#[test]
fn kernel_address_space_layout() {
    let mut fa = init_page_allocator(MyMemoryRegion { address: 0x8040_0000, size: 4096 * 64 });
    let mut pt = PageTable::new(&mut fa).unwrap();
    assert_eq!(init_paging(&mut fa, &mut pt, 0x8020_3456, 0x8030_0000, 0x8020_1000), Ok(()));
    let code = pt.get_phys_addr_perm(&fa, &VirtualAddr::new(0x8020_0123)).unwrap();
    assert_eq!((code.0 .0, code.1 .0), (0x8020_0123, 0b0000_1011));
    let data = pt.get_phys_addr_perm(&fa, &VirtualAddr::new(0x8021_0040)).unwrap();
    assert_eq!((data.0 .0, data.1 .0), (0x8021_0040, 0b0000_0111));
    let mem = pt.get_phys_addr_perm(&fa, &VirtualAddr::new(0x8043_f008)).unwrap();
    assert_eq!((mem.0 .0, mem.1 .0), (0x8043_f008, 0b0000_0111));
    let tramp = pt.get_phys_addr_perm(&fa, &VirtualAddr::new(TRAMPOLINE + 0x10)).unwrap();
    assert_eq!((tramp.0 .0, tramp.1 .0), (0x8020_1010, 0b0000_1011));
    assert_eq!(pt.get_phys_addr_perm(&fa, &VirtualAddr::new(0x8030_0000)), Err(TranslationFault));
    assert_eq!(pt.get_phys_addr_perm(&fa, &VirtualAddr::new(0x8044_0000)), Err(TranslationFault));
}

#[test]
fn process_address_space_layout() {
    let mut fa = init_page_allocator(MyMemoryRegion { address: 0x8040_0000, size: 4096 * 8 });
    let pt = new_user_page_table(&mut fa, 0x8050_0000, 0x8020_0abc).unwrap();
    let tf = pt.get_phys_addr_perm(&fa, &VirtualAddr::new(TRAPFRAME + 8)).unwrap();
    assert_eq!((tf.0 .0, tf.1 .0), (0x8050_0008, 0b0000_0111));
    let tr = pt.get_phys_addr_perm(&fa, &VirtualAddr::new(TRAMPOLINE)).unwrap();
    assert_eq!((tr.0 .0, tr.1 .0), (0x8020_1000, 0b0000_1011));
    assert_eq!(pt.get_phys_addr_perm(&fa, &VirtualAddr::new(0)), Err(TranslationFault));
}

#[test]
fn remapping_a_page_needs_no_frame() {
    let mut fa = init_page_allocator(MyMemoryRegion { address: 0x8000_0000, size: 4096 * 3 });
    let mut pt = PageTable::new(&mut fa).unwrap();
    assert_eq!(pt.map_pages(&mut fa, VirtualAddr::new(0x5000), PhysicalAddr::new(0x9000_0000), 4096, rw(), 0), Ok(()));
    assert_eq!(fa.kalloc(), Err(Exhausted));
    let exec = PTEPermission::read().union(PTEPermission::execute());
    assert_eq!(pt.map_pages(&mut fa, VirtualAddr::new(0x5000), PhysicalAddr::new(0x9100_0000), 4096, exec, 0), Ok(()));
    let (pa, perm) = pt.get_phys_addr_perm(&fa, &VirtualAddr::new(0x5123)).unwrap();
    assert_eq!((pa.0, perm.0), (0x9100_0123, 0b0000_1011));
}
