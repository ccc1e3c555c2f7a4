//! Choice of the physical memory that the frame allocator may hand out.
use vstd::prelude::*;

verus! {

/// A block of physical memory, as the platform describes it.
#[derive(Debug, PartialEq, Eq, Structural, Clone, Copy)]
pub struct MyMemoryRegion {
    pub address: u64,
    pub size: u64,
}

/// Whether the reserved block `r` touches `[lo, hi]`.
pub open spec fn overlaps(r: MyMemoryRegion, lo: int, hi: int) -> bool {
    !(r.address > hi || r.address + r.size < lo)
}

/// The usable part of the first memory block: from the end of the kernel
/// image (or the block's start, if later) to the block's end. `None` when
/// there is no block, or when a reserved block touches that part.
pub fn get_free_memory(regions: &Vec<MyMemoryRegion>, kernel_end: u64, reserved: &Vec<MyMemoryRegion>) -> (r: Option<MyMemoryRegion>)
    requires
        forall|i: int| 0 <= i < regions@.len() ==> (#[trigger] regions@[i]).address + regions@[i].size <= u64::MAX,
        forall|i: int| 0 <= i < reserved@.len() ==> (#[trigger] reserved@[i]).address + reserved@[i].size <= u64::MAX,
    ensures
        regions@.len() == 0 ==> r is None,
        regions@.len() > 0 ==> ({
            let m = regions@[0];
            let lo = if m.address >= kernel_end { m.address as int } else { kernel_end as int };
            let hi = m.address + m.size;
            &&& r is Some <==> forall|j: int| 0 <= j < reserved@.len() ==> !overlaps(#[trigger] reserved@[j], lo, hi)
            &&& r matches Some(x) ==> x.address == lo && x.size == if hi > lo { hi - lo } else { 0 }
        }),
{
    if regions.len() == 0 {
        return None;
    }
    let m = regions[0];
    let start = if m.address >= kernel_end { m.address } else { kernel_end };
    let end = m.address + m.size;
    let mut j: usize = 0;
    while j < reserved.len()
        invariant
            0 <= j <= reserved@.len(),
            m == regions@[0],
            start == if m.address >= kernel_end { m.address } else { kernel_end },
            end == m.address + m.size,
            forall|i: int| 0 <= i < reserved@.len() ==> (#[trigger] reserved@[i]).address + reserved@[i].size <= u64::MAX,
            forall|k: int| 0 <= k < j ==> !overlaps(#[trigger] reserved@[k], start as int, end as int),
        decreases reserved@.len() - j,
    {
        let rr = reserved[j];
        proof {
            assert(reserved@[j as int] == rr);
        }
        if !(rr.address > end || rr.address + rr.size < start) {
            proof {
                assert(overlaps(reserved@[j as int], start as int, end as int));
            }
            return None;
        }
        j = j + 1;
    }
    let size = if end > start { end - start } else { 0 };
    Some(MyMemoryRegion { address: start, size })
}

} // verus!
