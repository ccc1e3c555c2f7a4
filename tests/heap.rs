use kmem::addr::VirtualAddr;
use kmem::heap::{init_heap, FreeMemoryNode, MyGlobalAllocator, OutOfMemory, HEADER_SIZE, HEAP_START};
use kmem::kalloc::{init_page_allocator, StaticPageAllocator};
use kmem::page_table::PageTable;
use kmem::physical_memory_manager::MyMemoryRegion;

fn setup(frames: u64) -> (StaticPageAllocator, PageTable, MyGlobalAllocator) {
    let mut fa = init_page_allocator(MyMemoryRegion { address: 0x8000_0000, size: 4096 * frames });
    let mut pt = PageTable::new(&mut fa).unwrap();
    let heap = init_heap(&mut fa, &mut pt).unwrap();
    (fa, pt, heap)
}

fn total_free(heap: &MyGlobalAllocator) -> u64 {
    heap.nodes.iter().map(|n| n.size).sum()
}

#[test]
fn heap_starts_with_one_mapped_frame() {
    let (fa, pt, heap) = setup(16);
    assert_eq!(heap.allocated, 4096);
    assert_eq!(heap.nodes, vec![FreeMemoryNode { addr: HEAP_START, size: 4096 }]);
    // the root takes the first frame, the heap the second; its tables come after
    let (pa, perm) = pt.get_phys_addr_perm(&fa, &VirtualAddr::new(HEAP_START + 5)).unwrap();
    assert_eq!(pa.0, 0x8000_1005);
    assert_eq!(perm.0, 0b0000_0111);
}

#[test]
fn split_then_merge_in_order() {
    let (mut fa, mut pt, mut heap) = setup(16);
    let a1 = heap.allocate(&mut fa, &mut pt, 100, 8).unwrap();
    let a2 = heap.allocate(&mut fa, &mut pt, 200, 8).unwrap();
    assert_eq!(a1, HEAP_START);
    assert_eq!(a2, HEAP_START + 112);
    assert_eq!(total_free(&heap), 4096 - 112 - 208);
    heap.deallocate(a1, 100);
    heap.deallocate(a2, 200);
    assert_eq!(total_free(&heap), 4096);
    assert_eq!(
        heap.nodes,
        vec![
            FreeMemoryNode { addr: HEAP_START, size: 320 },
            FreeMemoryNode { addr: HEAP_START + 320, size: 4096 - 320 },
        ]
    );
}

#[test]
fn split_then_merge_in_reverse_order() {
    let (mut fa, mut pt, mut heap) = setup(16);
    let a1 = heap.allocate(&mut fa, &mut pt, 100, 8).unwrap();
    let a2 = heap.allocate(&mut fa, &mut pt, 200, 8).unwrap();
    heap.deallocate(a2, 200);
    heap.deallocate(a1, 100);
    assert_eq!(total_free(&heap), 4096);
    assert_eq!(heap.nodes, vec![FreeMemoryNode { addr: HEAP_START, size: 4096 }]);
}

#[test]
fn grows_by_one_frame_when_nothing_fits() {
    let (mut fa, mut pt, mut heap) = setup(16);
    assert_eq!(heap.allocate(&mut fa, &mut pt, 16, 16), Ok(HEAP_START));
    let big = 4096 - HEADER_SIZE + 1;
    assert_eq!(heap.allocate(&mut fa, &mut pt, big, 8), Ok(HEAP_START + 4096));
    assert_eq!(heap.allocated, 8192);
    assert_eq!(heap.nodes, vec![FreeMemoryNode { addr: HEAP_START + 16, size: 4080 }]);
    assert!(pt.get_phys_addr_perm(&fa, &VirtualAddr::new(HEAP_START + 4096 + 100)).is_ok());
}

#[test]
fn request_that_fills_the_first_frame_needs_no_growth() {
    let (mut fa, mut pt, mut heap) = setup(16);
    let big = 4096 - HEADER_SIZE + 1;
    assert_eq!(heap.allocate(&mut fa, &mut pt, big, 8), Ok(HEAP_START));
    assert_eq!(heap.allocated, 4096);
    assert!(heap.nodes.is_empty());
}

#[test]
fn out_of_memory_when_no_frame_is_left() {
    // root, two tables and the heap frame use all four frames
    let (mut fa, mut pt, mut heap) = setup(4);
    assert_eq!(heap.allocate(&mut fa, &mut pt, 16, 8), Ok(HEAP_START));
    assert_eq!(heap.allocate(&mut fa, &mut pt, 4096, 8), Err(OutOfMemory));
    assert_eq!(heap.allocated, 4096);
}

#[test]
fn sizes_round_up_to_headers() {
    let (mut fa, mut pt, mut heap) = setup(16);
    assert_eq!(heap.allocate(&mut fa, &mut pt, 1, 1), Ok(HEAP_START));
    assert_eq!(heap.nodes, vec![FreeMemoryNode { addr: HEAP_START + 16, size: 4080 }]);
}

#[test]
fn alignment_padding_is_skipped() {
    let (mut fa, mut pt, mut heap) = setup(16);
    assert_eq!(heap.allocate(&mut fa, &mut pt, 16, 16), Ok(HEAP_START));
    assert_eq!(heap.allocate(&mut fa, &mut pt, 16, 64), Ok(HEAP_START + 64));
    assert_eq!(heap.nodes, vec![FreeMemoryNode { addr: HEAP_START + 80, size: 4016 }]);
}

#[test]
fn free_without_neighbour_is_pushed_then_merged_one_side() {
    let (mut fa, mut pt, mut heap) = setup(16);
    let a = heap.allocate(&mut fa, &mut pt, 32, 8).unwrap();
    let b = heap.allocate(&mut fa, &mut pt, 32, 8).unwrap();
    let c = heap.allocate(&mut fa, &mut pt, 32, 8).unwrap();
    heap.deallocate(b, 32);
    assert_eq!(
        heap.nodes,
        vec![
            FreeMemoryNode { addr: HEAP_START + 32, size: 32 },
            FreeMemoryNode { addr: HEAP_START + 96, size: 4000 },
        ]
    );
    heap.deallocate(a, 32);
    assert_eq!(heap.nodes[0], FreeMemoryNode { addr: HEAP_START, size: 64 });
    heap.deallocate(c, 32);
    assert_eq!(
        heap.nodes,
        vec![
            FreeMemoryNode { addr: HEAP_START, size: 96 },
            FreeMemoryNode { addr: HEAP_START + 96, size: 4000 },
        ]
    );
    assert_eq!(total_free(&heap), 4096);
}

#[test]
fn heap_over_explicit_range() {
    let mut fa = init_page_allocator(MyMemoryRegion { address: 0x8000_0000, size: 4096 * 8 });
    let mut pt = PageTable::new(&mut fa).unwrap();
    let mut heap = MyGlobalAllocator::init(&mut fa, &mut pt, VirtualAddr::new(0x20_0000), VirtualAddr::new(0x20_1000)).unwrap();
    assert_eq!(heap.allocate(&mut fa, &mut pt, 16, 8), Ok(0x20_0000));
    // the range holds a single page: no growth is possible
    assert_eq!(heap.allocate(&mut fa, &mut pt, 4096, 8), Err(OutOfMemory));
}

#[test]
fn grows_with_a_single_free_frame() {
    // root, heap frame and two tables take four frames; one is left
    let (mut fa, mut pt, mut heap) = setup(5);
    assert_eq!(heap.allocate(&mut fa, &mut pt, 16, 16), Ok(HEAP_START));
    assert_eq!(heap.allocate(&mut fa, &mut pt, 4096 - HEADER_SIZE + 1, 8), Ok(HEAP_START + 4096));
    assert_eq!(heap.allocated, 8192);
    let (pa, _) = pt.get_phys_addr_perm(&fa, &VirtualAddr::new(HEAP_START + 4096)).unwrap();
    assert_eq!(pa.0, 0x8000_4000);
    assert!(fa.kalloc().is_err());
}

#[test]
fn frame_goes_back_when_mapping_fails() {
    let mut fa = init_page_allocator(MyMemoryRegion { address: 0x8000_0000, size: 4096 * 5 });
    let mut pt = PageTable::new(&mut fa).unwrap();
    // the second page of this range lies under another innermost table
    let mut heap = MyGlobalAllocator::init(&mut fa, &mut pt, VirtualAddr::new(0x1f_f000), VirtualAddr::new(0x20_1000)).unwrap();
    assert_eq!(heap.allocate(&mut fa, &mut pt, 16, 8), Ok(0x1f_f000));
    assert_eq!(heap.allocate(&mut fa, &mut pt, 4096, 8), Err(OutOfMemory));
    assert_eq!(heap.allocated, 4096);
    assert_eq!(fa.kalloc().map(|p| p.0), Ok(0x8000_4000));
}
