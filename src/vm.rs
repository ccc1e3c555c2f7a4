//! Construction of the kernel's and the processes' address spaces.
use vstd::prelude::*;
use crate::addr::{page_round_up, round_up, PhysicalAddr, VirtualAddr, MAX_PHYSICAL_ADDR, MAX_VIRTUAL_ADDR, PAGE_SIZE};
use crate::entry::{lemma_perms, rw, rx, PTEPermission};
use crate::kalloc::{Exhausted, StaticPageAllocator};
use crate::kalloc::PhysicalMemory;
use crate::page_table::{is_page, leaf_word, maps_range, walk_page, PageTable};

verus! {

/// Where the linker places the kernel image.
pub const KERNEL_BASE: u64 = 0x8020_0000;

/// The highest page of every address space holds the trap trampoline.
pub const TRAMPOLINE: u64 = MAX_VIRTUAL_ADDR - PAGE_SIZE;

/// The page below the trampoline holds the process's trap frame.
pub const TRAPFRAME: u64 = TRAMPOLINE - PAGE_SIZE;

/// A mapped range stays mapped when the walks of the pages outside another
/// range are left unchanged.
proof fn lemma_range_kept(
    m_old: PhysicalMemory,
    m_new: PhysicalMemory,
    root: int,
    page: int,
    ppn: int,
    n: int,
    perm: u8,
    lo: int,
    cnt: int,
)
    requires
        maps_range(m_old, root, page, ppn, n, perm),
        forall|q: int| is_page(q) && !(lo <= q < lo + cnt) ==> #[trigger] walk_page(m_new, root, q) == walk_page(m_old, root, q),
        0 <= page,
        page + n <= 0x800_0000,
        page + n <= lo || lo + cnt <= page,
    ensures
        maps_range(m_new, root, page, ppn, n, perm),
{
    assert forall|j: int| 0 <= j < n implies #[trigger] walk_page(m_new, root, page + j) == Some(leaf_word(perm, ppn + j)) by {
        assert(walk_page(m_new, root, page + j) == walk_page(m_old, root, page + j));
        assert(walk_page(m_old, root, page + j) == Some(leaf_word(perm, ppn + j)));
    }
}

/// Fills the kernel's page table: the kernel's code readable and executable,
/// its data and all the memory of `fa` readable and writable, each at its own
/// address, and the trampoline readable and executable in the highest page.
pub fn init_paging(
    fa: &mut StaticPageAllocator,
    pt: &mut PageTable,
    kernel_text_end: u64,
    kernel_end: u64,
    trampoline: u64,
) -> (r: Result<(), Exhausted>)
    requires
        old(pt).wf(old(fa)),
        KERNEL_BASE < round_up(kernel_text_end as int),
        round_up(kernel_text_end as int) < round_up(kernel_end as int),
        round_up(kernel_end as int) <= old(fa).start,
        old(fa).start < old(fa).end <= TRAMPOLINE,
        round_up(trampoline as int) + 4096 <= MAX_PHYSICAL_ADDR,
    ensures
        final(pt).wf(final(fa)),
        final(pt).root == old(pt).root,
        r is Err ==> final(fa).free@.len() == 0,
        r is Ok ==> ({
            let m = final(fa).mem;
            let root = final(pt).root as int;
            let te = round_up(kernel_text_end as int) / 4096;
            let ke = round_up(kernel_end as int) / 4096;
            let ms = old(fa).start as int / 4096;
            let me = old(fa).end as int / 4096;
            &&& maps_range(m, root, KERNEL_BASE as int / 4096, KERNEL_BASE as int / 4096, te - KERNEL_BASE as int / 4096, rx())
            &&& maps_range(m, root, te, te, ke - te, rw())
            &&& maps_range(m, root, ms, ms, me - ms, rw())
            &&& maps_range(m, root, TRAMPOLINE as int / 4096, round_up(trampoline as int) / 4096, 1, rx())
        }),
{
    proof {
        lemma_perms();
    }
    let text_end = page_round_up(kernel_text_end);
    let data_end = page_round_up(kernel_end);
    let start = fa.start_addr();
    let end = fa.end_addr();
    let tramp = page_round_up(trampoline);
    let ghost m0 = fa.mem;
    proof {
        vstd::arithmetic::div_mod::lemma_fundamental_div_mod(kernel_text_end as int, 4096);
        vstd::arithmetic::div_mod::lemma_fundamental_div_mod(kernel_end as int, 4096);
        vstd::arithmetic::div_mod::lemma_fundamental_div_mod(trampoline as int, 4096);
        vstd::arithmetic::div_mod::lemma_fundamental_div_mod(text_end as int, 4096);
        vstd::arithmetic::div_mod::lemma_fundamental_div_mod(data_end as int, 4096);
        vstd::arithmetic::div_mod::lemma_fundamental_div_mod(tramp as int, 4096);
        vstd::arithmetic::div_mod::lemma_fundamental_div_mod(start as int, 4096);
        vstd::arithmetic::div_mod::lemma_fundamental_div_mod(end as int, 4096);
        assert(text_end % 4096 == 0) by {
            if kernel_text_end % 4096 != 0 {
                vstd::arithmetic::div_mod::lemma_mod_multiples_basic(kernel_text_end as int / 4096 + 1, 4096);
                assert(text_end == (kernel_text_end as int / 4096 + 1) * 4096);
            }
        }
        assert(data_end % 4096 == 0) by {
            if kernel_end % 4096 != 0 {
                vstd::arithmetic::div_mod::lemma_mod_multiples_basic(kernel_end as int / 4096 + 1, 4096);
                assert(data_end == (kernel_end as int / 4096 + 1) * 4096);
            }
        }
        assert(tramp % 4096 == 0) by {
            if trampoline % 4096 != 0 {
                vstd::arithmetic::div_mod::lemma_mod_multiples_basic(trampoline as int / 4096 + 1, 4096);
                assert(tramp == (trampoline as int / 4096 + 1) * 4096);
            }
        }
    }
    let text_size = text_end - KERNEL_BASE;
    let data_size = data_end - text_end;
    let mem_size = end - start;
    proof {
        assert(round_up(text_size as int) == text_size) by {
            vstd::arithmetic::div_mod::lemma_sub_mod_noop(text_end as int, KERNEL_BASE as int, 4096);
        }
        assert(round_up(data_size as int) == data_size) by {
            vstd::arithmetic::div_mod::lemma_sub_mod_noop(data_end as int, text_end as int, 4096);
        }
        assert(round_up(mem_size as int) == mem_size) by {
            vstd::arithmetic::div_mod::lemma_sub_mod_noop(end as int, start as int, 4096);
        }
        assert(text_size as int / 4096 == text_end as int / 4096 - KERNEL_BASE as int / 4096);
        assert(data_size as int / 4096 == data_end as int / 4096 - text_end as int / 4096);
        assert(mem_size as int / 4096 == end as int / 4096 - start as int / 4096);
    }
    let perm_rx = PTEPermission::read().union(PTEPermission::execute());
    let perm_rw = PTEPermission::read().union(PTEPermission::write());

    pt.map_pages(fa, VirtualAddr::new(KERNEL_BASE), PhysicalAddr::new(KERNEL_BASE), text_size, perm_rx, 0)?;
    let ghost m1 = fa.mem;
    pt.map_pages(fa, VirtualAddr::new(text_end), PhysicalAddr::new(text_end), data_size, perm_rw, 0)?;
    let ghost m2 = fa.mem;
    proof {
        lemma_range_kept(m1, m2, pt.root as int, KERNEL_BASE as int / 4096, KERNEL_BASE as int / 4096, text_end as int / 4096 - KERNEL_BASE as int / 4096, perm_rx.0, text_end as int / 4096, data_end as int / 4096 - text_end as int / 4096);
    }
    pt.map_pages(fa, VirtualAddr::new(start), PhysicalAddr::new(start), mem_size, perm_rw, 2)?;
    let ghost m3 = fa.mem;
    proof {
        lemma_range_kept(m2, m3, pt.root as int, KERNEL_BASE as int / 4096, KERNEL_BASE as int / 4096, text_end as int / 4096 - KERNEL_BASE as int / 4096, perm_rx.0, start as int / 4096, end as int / 4096 - start as int / 4096);
        lemma_range_kept(m2, m3, pt.root as int, text_end as int / 4096, text_end as int / 4096, data_end as int / 4096 - text_end as int / 4096, perm_rw.0, start as int / 4096, end as int / 4096 - start as int / 4096);
    }
    pt.map_pages(fa, VirtualAddr::new(TRAMPOLINE), PhysicalAddr::new(tramp), PAGE_SIZE, perm_rx, 0)?;
    let ghost m4 = fa.mem;
    proof {
        lemma_range_kept(m3, m4, pt.root as int, KERNEL_BASE as int / 4096, KERNEL_BASE as int / 4096, text_end as int / 4096 - KERNEL_BASE as int / 4096, perm_rx.0, TRAMPOLINE as int / 4096, 1);
        lemma_range_kept(m3, m4, pt.root as int, text_end as int / 4096, text_end as int / 4096, data_end as int / 4096 - text_end as int / 4096, perm_rw.0, TRAMPOLINE as int / 4096, 1);
        lemma_range_kept(m3, m4, pt.root as int, start as int / 4096, start as int / 4096, end as int / 4096 - start as int / 4096, perm_rw.0, TRAMPOLINE as int / 4096, 1);
    }
    Ok(())
}

/// A fresh address space for a process: the trampoline readable and
/// executable in the highest page, the process's trap frame (at physical
/// address `trap_frame`) readable and writable just below it, nothing else.
pub fn new_user_page_table(fa: &mut StaticPageAllocator, trap_frame: u64, trampoline: u64) -> (r: Result<PageTable, Exhausted>)
    requires
        old(fa).wf(),
        round_up(trampoline as int) + 4096 <= MAX_PHYSICAL_ADDR,
        trap_frame % 4096 == 0,
        trap_frame + 4096 <= MAX_PHYSICAL_ADDR,
    ensures
        final(fa).wf(),
        r is Err ==> final(fa).free@.len() == 0,
        r matches Ok(pt) ==> ({
            let m = final(fa).mem;
            let root = pt.root as int;
            &&& pt.wf(final(fa))
            &&& maps_range(m, root, TRAMPOLINE as int / 4096, round_up(trampoline as int) / 4096, 1, rx())
            &&& maps_range(m, root, TRAPFRAME as int / 4096, trap_frame as int / 4096, 1, rw())
            &&& forall|q: int|
                is_page(q) && q != TRAMPOLINE as int / 4096 && q != TRAPFRAME as int / 4096 ==> #[trigger] walk_page(m, root, q) is None
        }),
{
    proof {
        lemma_perms();
    }
    let tramp = page_round_up(trampoline);
    let mut pt = PageTable::new(fa)?;
    let ghost m0 = fa.mem;
    let perm_rx = PTEPermission::read().union(PTEPermission::execute());
    let perm_rw = PTEPermission::read().union(PTEPermission::write());
    pt.map_pages(fa, VirtualAddr::new(TRAMPOLINE), PhysicalAddr::new(tramp), PAGE_SIZE, perm_rx, 0)?;
    let ghost m1 = fa.mem;
    pt.map_pages(fa, VirtualAddr::new(TRAPFRAME), PhysicalAddr::new(trap_frame), PAGE_SIZE, perm_rw, 0)?;
    proof {
        lemma_range_kept(m1, fa.mem, pt.root as int, TRAMPOLINE as int / 4096, tramp as int / 4096, 1, perm_rx.0, TRAPFRAME as int / 4096, 1);
        assert forall|q: int|
            is_page(q) && q != TRAMPOLINE as int / 4096 && q != TRAPFRAME as int / 4096 implies #[trigger] walk_page(fa.mem, pt.root as int, q) is None by {
            assert(walk_page(m1, pt.root as int, q) == walk_page(m0, pt.root as int, q));
            assert(walk_page(fa.mem, pt.root as int, q) == walk_page(m1, pt.root as int, q));
        }
    }
    Ok(pt)
}

} // verus!
