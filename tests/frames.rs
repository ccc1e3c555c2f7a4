use kmem::addr::PhysicalAddr;
use kmem::kalloc::{init_page_allocator, memset, Exhausted};
use kmem::physical_memory_manager::{get_free_memory, MyMemoryRegion};

#[test]
fn four_frames_in_list_order_then_exhausted() {
    let mut fa = init_page_allocator(MyMemoryRegion { address: 0x1000, size: 4096 * 4 });
    assert_eq!(fa.kalloc(), Ok(PhysicalAddr(0x1000)));
    assert_eq!(fa.kalloc(), Ok(PhysicalAddr(0x2000)));
    assert_eq!(fa.kalloc(), Ok(PhysicalAddr(0x3000)));
    assert_eq!(fa.kalloc(), Ok(PhysicalAddr(0x4000)));
    assert_eq!(fa.kalloc(), Err(Exhausted));
}

#[test]
fn freed_frame_comes_back_first() {
    let mut fa = init_page_allocator(MyMemoryRegion { address: 0x1000, size: 4096 * 4 });
    assert_eq!(fa.kalloc(), Ok(PhysicalAddr(0x1000)));
    assert_eq!(fa.kalloc(), Ok(PhysicalAddr(0x2000)));
    fa.kfree(PhysicalAddr(0x1000));
    assert_eq!(fa.kalloc(), Ok(PhysicalAddr(0x1000)));
    assert_eq!(fa.kalloc(), Ok(PhysicalAddr(0x3000)));
}

#[test]
fn unaligned_region_yields_its_whole_frames() {
    let mut fa = init_page_allocator(MyMemoryRegion { address: 0x1234, size: 0x5000 });
    assert_eq!(fa.start_addr(), 0x2000);
    assert_eq!(fa.end_addr(), 0x6000);
    let mut got = Vec::new();
    while let Ok(pa) = fa.kalloc() {
        got.push(pa.0);
    }
    assert_eq!(got, vec![0x2000, 0x3000, 0x4000, 0x5000]);
}

#[test]
fn region_smaller_than_a_frame_has_none() {
    let mut fa = init_page_allocator(MyMemoryRegion { address: 0x1800, size: 0x1000 });
    assert_eq!(fa.kalloc(), Err(Exhausted));
}

#[test]
fn allocated_frame_is_zero_filled() {
    let mut fa = init_page_allocator(MyMemoryRegion { address: 0x8000_0000, size: 4096 * 2 });
    let pa = fa.kalloc().unwrap();
    for k in 0..512u64 {
        fa.mem.write_word(pa.0 + 8 * k, 0xdead_beef_0000_0000 | k);
    }
    fa.kfree(pa);
    let again = fa.kalloc().unwrap();
    assert_eq!(again, pa);
    for k in 0..512u64 {
        assert_eq!(fa.mem.read_word(pa.0 + 8 * k), 0);
    }
}

#[test]
fn memset_fills_bytes_in_range_only() {
    let mut fa = init_page_allocator(MyMemoryRegion { address: 0x1000, size: 4096 });
    memset(&mut fa.mem, 0x1008, 16, 0xab);
    assert_eq!(fa.mem.read_word(0x1000), 0);
    assert_eq!(fa.mem.read_word(0x1008), 0xabab_abab_abab_abab);
    assert_eq!(fa.mem.read_word(0x1010), 0xabab_abab_abab_abab);
    assert_eq!(fa.mem.read_word(0x1018), 0);
}

#[test]
fn free_memory_starts_after_kernel() {
    let regions = vec![MyMemoryRegion { address: 0x8000_0000, size: 0x800_0000 }];
    let reserved = vec![MyMemoryRegion { address: 0x7000_0000, size: 0x1000 }];
    let r = get_free_memory(&regions, 0x8040_0000, &reserved);
    assert_eq!(r, Some(MyMemoryRegion { address: 0x8040_0000, size: 0x7c0_0000 }));
    let below = get_free_memory(&regions, 0x1000, &vec![]);
    assert_eq!(below, Some(MyMemoryRegion { address: 0x8000_0000, size: 0x800_0000 }));
}

#[test]
fn free_memory_refuses_overlapping_reservation() {
    let regions = vec![MyMemoryRegion { address: 0x8000_0000, size: 0x800_0000 }];
    let reserved = vec![MyMemoryRegion { address: 0x8100_0000, size: 0x1000 }];
    assert_eq!(get_free_memory(&regions, 0x8040_0000, &reserved), None);
    assert_eq!(get_free_memory(&vec![], 0x8040_0000, &vec![]), None);
}
