//! First-fit heap allocator with splitting and coalescing, backed by frames
//! that it maps into a reserved virtual range.
use vstd::prelude::*;
use crate::addr::{VirtualAddr, MAX_VIRTUAL_ADDR, PAGE_SIZE};
use crate::entry::{lemma_perms, rw, PTEPermission};
use crate::kalloc::StaticPageAllocator;
use crate::page_table::{
    is_page, is_suffix, leaf_word, lemma_kalloc_keeps_table, lemma_kfree_keeps_table, lemma_suffix_contains,
    lemma_suffix_trans, maps_range, tables_present, walk_page, PageTable,
};

verus! {

/// Bytes taken by the header of a free region: its link and its size.
pub const HEADER_SIZE: u64 = 16;

/// The virtual range reserved for the kernel heap.
pub const HEAP_START: u64 = 0x1_0000_0000;
pub const HEAP_END: u64 = 0x1_1000_0000;

/// One free region of the heap: `size` bytes from `addr`.
#[derive(Debug, PartialEq, Eq, Structural, Clone, Copy)]
pub struct FreeMemoryNode {
    pub addr: u64,
    pub size: u64,
}

/// The heap could not find or obtain room for a request.
#[derive(Debug, PartialEq, Eq, Structural, Clone, Copy)]
pub struct OutOfMemory;

/// `size` rounded up to a whole number of headers.
pub open spec fn alloc_size(size: int) -> int {
    if size % 16 == 0 { size } else { size - size % 16 + 16 }
}

/// Bytes to skip from `addr` to reach a multiple of `align`.
pub open spec fn padding(addr: int, align: int) -> int {
    if addr % align == 0 { 0 } else { align - addr % align }
}

/// Whether `asz` bytes aligned to `align` fit in `n`.
pub open spec fn fits(n: FreeMemoryNode, asz: int, align: int) -> bool {
    n.size >= asz + padding(n.addr as int, align)
}

/// The first node from index `i` on that fits.
pub open spec fn first_fit_from(nodes: Seq<FreeMemoryNode>, asz: int, align: int, i: int) -> Option<int>
    decreases nodes.len() - i,
{
    if i < 0 || i >= nodes.len() {
        None
    } else if fits(nodes[i], asz, align) {
        Some(i)
    } else {
        first_fit_from(nodes, asz, align, i + 1)
    }
}

pub open spec fn first_fit(nodes: Seq<FreeMemoryNode>, asz: int, align: int) -> Option<int> {
    first_fit_from(nodes, asz, align, 0)
}

/// The list after `asz` bytes are carved, after padding, from the front of
/// node `i`: what is left stays in its place if it can hold a header, else
/// the node leaves the list.
pub open spec fn carve(nodes: Seq<FreeMemoryNode>, i: int, asz: int, align: int) -> Seq<FreeMemoryNode> {
    let n = nodes[i];
    let pad = padding(n.addr as int, align);
    let rest = n.size - asz - pad;
    if rest >= 16 {
        nodes.update(i, FreeMemoryNode { addr: (n.addr + asz + pad) as u64, size: rest as u64 })
    } else {
        nodes.remove(i)
    }
}

/// The address handed out when node `i` is carved.
pub open spec fn carve_addr(nodes: Seq<FreeMemoryNode>, i: int, align: int) -> u64 {
    (nodes[i].addr + padding(nodes[i].addr as int, align)) as u64
}

/// First fit of `asz` bytes aligned to `align`: the new list and the address.
pub open spec fn fit_result(nodes: Seq<FreeMemoryNode>, asz: int, align: int) -> Option<(Seq<FreeMemoryNode>, u64)> {
    match first_fit(nodes, asz, align) {
        Some(i) => Some((carve(nodes, i, asz, align), carve_addr(nodes, i, align))),
        None => None,
    }
}

/// The list after `g` fresh one-page nodes were pushed at its head, the pages
/// from `top` up, the last one first.
pub open spec fn grown(nodes: Seq<FreeMemoryNode>, top: int, g: nat) -> Seq<FreeMemoryNode>
    decreases g,
{
    if g == 0 {
        nodes
    } else {
        seq![FreeMemoryNode { addr: (top + 4096 * (g - 1)) as u64, size: 4096 }].add(grown(nodes, top, (g - 1) as nat))
    }
}

/// Growth by `g` pages is what a request needs: nothing fits after fewer, and
/// something fits after `g`.
pub open spec fn growth_needed(nodes: Seq<FreeMemoryNode>, top: int, asz: int, align: int, g: nat) -> bool {
    &&& first_fit(grown(nodes, top, g), asz, align) is Some
    &&& forall|h: nat| h < g ==> #[trigger] first_fit(grown(nodes, top, h), asz, align) is None
}

/// Whether node `n` ends where `[ptr, ptr + asz)` starts, or starts where it ends.
pub open spec fn adjacent(n: FreeMemoryNode, ptr: int, asz: int) -> bool {
    n.addr == ptr + asz || n.addr + n.size == ptr
}

/// The first node from index `i` on that touches `[ptr, ptr + asz)`.
pub open spec fn first_adjacent_from(nodes: Seq<FreeMemoryNode>, ptr: int, asz: int, i: int) -> Option<int>
    decreases nodes.len() - i,
{
    if i < 0 || i >= nodes.len() {
        None
    } else if adjacent(nodes[i], ptr, asz) {
        Some(i)
    } else {
        first_adjacent_from(nodes, ptr, asz, i + 1)
    }
}

/// The list after `[ptr, ptr + asz)` is freed: merged into the first node that
/// touches it (a node starting at its end first, then one ending at its
/// start), or else pushed at the head as a node of its own.
pub open spec fn dealloc_spec(nodes: Seq<FreeMemoryNode>, ptr: int, asz: int) -> Seq<FreeMemoryNode> {
    match first_adjacent_from(nodes, ptr, asz, 0) {
        Some(i) => {
            let n = nodes[i];
            if n.addr == ptr + asz {
                nodes.update(i, FreeMemoryNode { addr: ptr as u64, size: (n.size + asz) as u64 })
            } else {
                nodes.update(i, FreeMemoryNode { addr: n.addr, size: (n.size + asz) as u64 })
            }
        },
        None => seq![FreeMemoryNode { addr: ptr as u64, size: asz as u64 }].add(nodes),
    }
}

/// Bytes held by the free list.
pub open spec fn total_free(nodes: Seq<FreeMemoryNode>) -> int
    decreases nodes.len(),
{
    if nodes.len() == 0 {
        0
    } else {
        nodes[0].size + total_free(nodes.drop_first())
    }
}

proof fn lemma_no_padding(addr: int, align: int)
    requires
        addr >= 0,
        addr % 16 == 0,
        align > 0,
        16int % align == 0,
    ensures
        padding(addr, align) == 0,
{
    vstd::arithmetic::div_mod::lemma_fundamental_div_mod(addr, 16);
    vstd::arithmetic::div_mod::lemma_fundamental_div_mod(16, align);
    let m = 16int / align;
    let q = addr / 16;
    assert(addr == align * (m * q)) by (nonlinear_arith)
        requires
            addr == 16 * q,
            16 == align * m,
    ;
    vstd::arithmetic::div_mod::lemma_mod_multiples_basic(m * q, align);
    assert(addr == (m * q) * align) by (nonlinear_arith)
        requires
            addr == align * (m * q),
    ;
}

proof fn lemma_alloc_size(size: int)
    requires
        size > 0,
    ensures
        alloc_size(size) % 16 == 0,
        alloc_size(size) >= 16,
        alloc_size(size) >= size,
{
    vstd::arithmetic::div_mod::lemma_fundamental_div_mod(size, 16);
    if size % 16 != 0 {
        assert(alloc_size(size) == 16 * (size / 16 + 1));
        vstd::arithmetic::div_mod::lemma_mod_multiples_basic(size / 16 + 1, 16);
    }
}

/// Two requests carved from a single free region of whole headers, then both
/// freed, in either order, leave exactly the region's bytes free.
pub proof fn lemma_split_merge_round_trip(base: u64, region: u64, s1: u64, s2: u64, align1: u64, align2: u64)
    requires
        base % 16 == 0,
        region % 16 == 0,
        base + region <= u64::MAX,
        s1 > 0,
        s2 > 0,
        alloc_size(s1 as int) + alloc_size(s2 as int) <= region,
        align1 > 0,
        16int % (align1 as int) == 0,
        align2 > 0,
        16int % (align2 as int) == 0,
    ensures
        ({
            let nodes = seq![FreeMemoryNode { addr: base, size: region }];
            let a1 = alloc_size(s1 as int);
            let a2 = alloc_size(s2 as int);
            match fit_result(nodes, a1, align1 as int) {
                Some((n1, addr1)) => match fit_result(n1, a2, align2 as int) {
                    Some((n2, addr2)) => {
                        &&& total_free(dealloc_spec(dealloc_spec(n2, addr1 as int, a1), addr2 as int, a2)) == region
                        &&& total_free(dealloc_spec(dealloc_spec(n2, addr2 as int, a2), addr1 as int, a1)) == region
                    },
                    None => false,
                },
                None => false,
            }
        }),
{
    let nodes = seq![FreeMemoryNode { addr: base, size: region }];
    let a1 = alloc_size(s1 as int);
    let a2 = alloc_size(s2 as int);
    lemma_alloc_size(s1 as int);
    lemma_alloc_size(s2 as int);
    lemma_no_padding(base as int, align1 as int);
    lemma_no_padding(base + a1, align2 as int);
    reveal_with_fuel(first_fit_from, 2);
    reveal_with_fuel(first_adjacent_from, 3);
    reveal_with_fuel(total_free, 3);
    assert(first_fit(nodes, a1, align1 as int) == Some(0int));
    let n1 = carve(nodes, 0, a1, align1 as int);
    assert(n1 =~= seq![FreeMemoryNode { addr: (base + a1) as u64, size: (region - a1) as u64 }]);
    assert(carve_addr(nodes, 0, align1 as int) == base);
    assert(first_fit(n1, a2, align2 as int) == Some(0int));
    let n2 = carve(n1, 0, a2, align2 as int);
    assert(carve_addr(n1, 0, align2 as int) == base + a1);
    let rest = region - a1 - a2;
    if rest >= 16 {
        let tail = FreeMemoryNode { addr: (base + a1 + a2) as u64, size: rest as u64 };
        assert(n2 =~= seq![tail]);
        let d1 = dealloc_spec(n2, base as int, a1);
        assert(d1 =~= seq![FreeMemoryNode { addr: base, size: a1 as u64 }, tail]);
        let d2 = dealloc_spec(d1, base + a1, a2);
        assert(d2 =~= seq![FreeMemoryNode { addr: base, size: (a1 + a2) as u64 }, tail]);
        assert(d2.drop_first() =~= seq![tail]);
        assert(d2.drop_first().drop_first() =~= Seq::<FreeMemoryNode>::empty());
        let e1 = dealloc_spec(n2, base + a1, a2);
        assert(e1 =~= seq![FreeMemoryNode { addr: (base + a1) as u64, size: (rest + a2) as u64 }]);
        let e2 = dealloc_spec(e1, base as int, a1);
        assert(e2 =~= seq![FreeMemoryNode { addr: base, size: region }]);
        assert(e2.drop_first() =~= Seq::<FreeMemoryNode>::empty());
    } else {
        assert(rest == 0) by {
            vstd::arithmetic::div_mod::lemma_fundamental_div_mod(region as int, 16);
            vstd::arithmetic::div_mod::lemma_fundamental_div_mod(a1, 16);
            vstd::arithmetic::div_mod::lemma_fundamental_div_mod(a2, 16);
        }
        assert(n2 =~= Seq::<FreeMemoryNode>::empty());
        let d1 = dealloc_spec(n2, base as int, a1);
        assert(d1 =~= seq![FreeMemoryNode { addr: base, size: a1 as u64 }]);
        let d2 = dealloc_spec(d1, base + a1, a2);
        assert(d2 =~= seq![FreeMemoryNode { addr: base, size: region }]);
        assert(d2.drop_first() =~= Seq::<FreeMemoryNode>::empty());
        let e1 = dealloc_spec(n2, base + a1, a2);
        assert(e1 =~= seq![FreeMemoryNode { addr: (base + a1) as u64, size: a2 as u64 }]);
        let e2 = dealloc_spec(e1, base as int, a1);
        assert(e2 =~= seq![FreeMemoryNode { addr: base, size: region }]);
        assert(e2.drop_first() =~= Seq::<FreeMemoryNode>::empty());
    }
}

/// When nothing in the free list fits a request and a fresh page does, the
/// request is met after exactly one page of growth: `allocate` then raises the
/// backed size by exactly one page.
pub proof fn lemma_growth_once(nodes: Seq<FreeMemoryNode>, top: int, asz: int, align: int, g: nat)
    requires
        first_fit(nodes, asz, align) is None,
        fits(FreeMemoryNode { addr: top as u64, size: 4096 }, asz, align),
        0 <= top <= u64::MAX,
    ensures
        growth_needed(nodes, top, asz, align, g) <==> g == 1,
{
    reveal_with_fuel(grown, 2);
    let g1 = grown(nodes, top, 1);
    assert(g1[0] == FreeMemoryNode { addr: top as u64, size: 4096 });
    assert(first_fit(g1, asz, align) == Some(0int));
    assert(grown(nodes, top, 0) == nodes);
    if g > 1 {
        assert(!growth_needed(nodes, top, asz, align, g)) by {
            assert(first_fit(grown(nodes, top, 1), asz, align) is Some);
        }
    }
    if g == 0 {
        assert(!growth_needed(nodes, top, asz, align, g));
    }
}

/// Every node holds at least a header and lies in `[lo, hi)`.
pub open spec fn nodes_ok(nodes: Seq<FreeMemoryNode>, lo: int, hi: int) -> bool {
    forall|i: int|
        0 <= i < nodes.len() ==> {
            &&& lo <= (#[trigger] nodes[i]).addr
            &&& nodes[i].addr + nodes[i].size <= hi
            &&& nodes[i].size >= 16
        }
}

/// The heap: the reserved virtual range, the bytes of it backed by mapped
/// frames, and the free list, head first.
pub struct MyGlobalAllocator {
    pub start_address: VirtualAddr,
    pub end_address: VirtualAddr,
    pub allocated: u64,
    pub nodes: Vec<FreeMemoryNode>,
    /// The frame behind each backed page, lowest page first.
    pub frames: Ghost<Seq<u64>>,
}

impl MyGlobalAllocator {
    /// One past the last backed byte.
    pub open spec fn top(&self) -> int {
        self.start_address.0 + self.allocated
    }

    /// The range is page aligned, the backed part lies in it, and every free
    /// node holds at least a header and lies in the backed part.
    pub open spec fn heap_ok(&self) -> bool {
        &&& self.start_address.0 % 4096 == 0
        &&& self.allocated % 4096 == 0
        &&& self.start_address.0 + self.allocated <= self.end_address.0 <= MAX_VIRTUAL_ADDR
        &&& nodes_ok(self.nodes@, self.start_address.0 as int, self.top())
    }

    /// The range is page aligned, the backed part lies in it, every free node
    /// holds at least a header and lies in the backed part, and every backed
    /// page is mapped by `pt`, readable and writable, to its own frame of `fa`
    /// that `fa` no longer counts as free.
    pub open spec fn wf(&self, pt: &PageTable, fa: &StaticPageAllocator) -> bool {
        &&& pt.wf(fa)
        &&& self.heap_ok()
        &&& self.frames@.len() == self.allocated / 4096
        &&& self.frames@.no_duplicates()
        &&& forall|j: int|
            0 <= j < self.frames@.len() ==> fa.is_frame(#[trigger] self.frames@[j] as int) && !fa.free@.contains(
                self.frames@[j],
            )
        &&& forall|j: int|
            0 <= j < self.allocated / 4096 ==> #[trigger] walk_page(
                fa.mem,
                pt.root as int,
                self.start_address.0 / 4096 + j,
            ) == Some(leaf_word(rw(), self.frames@[j] as int / 4096))
    }
}

/// `size` rounded up to a whole number of headers.
fn round_to_header(size: u64) -> (r: u64)
    requires
        size + 15 <= u64::MAX,
    ensures
        r == alloc_size(size as int),
{
    if size % HEADER_SIZE != 0 {
        size + (HEADER_SIZE - size % HEADER_SIZE)
    } else {
        size
    }
}

impl MyGlobalAllocator {
    /// Carves `asz` bytes aligned to `align` from the first node that fits.
    fn take_first_fit(&mut self, asz: u64, align: u64) -> (r: Option<u64>)
        requires
            align > 0,
            asz % 16 == 0,
            nodes_ok(old(self).nodes@, old(self).start_address.0 as int, old(self).top()),
            old(self).top() <= MAX_VIRTUAL_ADDR,
        ensures
            final(self).start_address == old(self).start_address,
            final(self).end_address == old(self).end_address,
            final(self).allocated == old(self).allocated,
            final(self).frames == old(self).frames,
            r matches Some(a) ==> fit_result(old(self).nodes@, asz as int, align as int) == Some((final(self).nodes@, a)),
            r is None ==> fit_result(old(self).nodes@, asz as int, align as int) is None && final(self).nodes@ == old(self).nodes@,
            nodes_ok(final(self).nodes@, final(self).start_address.0 as int, final(self).top()),
    {
        let mut i: usize = 0;
        while i < self.nodes.len()
            invariant
                self.nodes@ == old(self).nodes@,
                self.start_address == old(self).start_address,
                self.end_address == old(self).end_address,
                self.allocated == old(self).allocated,
                self.frames == old(self).frames,
                align > 0,
                nodes_ok(self.nodes@, self.start_address.0 as int, self.top()),
                self.top() <= MAX_VIRTUAL_ADDR,
                0 <= i <= self.nodes@.len(),
                first_fit_from(self.nodes@, asz as int, align as int, 0) == first_fit_from(self.nodes@, asz as int, align as int, i as int),
            decreases self.nodes@.len() - i,
        {
            let n = self.nodes[i];
            proof {
                assert(nodes_ok(self.nodes@, self.start_address.0 as int, self.top()));
                assert(self.start_address.0 <= self.nodes@[i as int].addr);
            }
            let m = n.addr % align;
            let pad = if m == 0 { 0 } else { align - m };
            if asz <= n.size && pad <= n.size - asz {
                let rest = n.size - asz - pad;
                let ghost nodes0 = self.nodes@;
                if rest >= HEADER_SIZE {
                    self.nodes.set(i, FreeMemoryNode { addr: n.addr + asz + pad, size: rest });
                } else {
                    self.nodes.remove(i);
                }
                proof {
                    assert(fits(nodes0[i as int], asz as int, align as int));
                    assert(first_fit(nodes0, asz as int, align as int) == Some(i as int));
                    assert(self.nodes@ =~= carve(nodes0, i as int, asz as int, align as int));
                    assert forall|k: int| 0 <= k < self.nodes@.len() implies {
                        &&& self.start_address.0 <= (#[trigger] self.nodes@[k]).addr
                        &&& self.nodes@[k].addr + self.nodes@[k].size <= self.top()
                        &&& self.nodes@[k].size >= 16
                    } by {
                        if rest < HEADER_SIZE && k >= i {
                            assert(self.nodes@[k] == nodes0[k + 1]);
                        }
                    }
                }
                return Some(n.addr + pad);
            }
            i = i + 1;
        }
        None
    }

    /// Backs one more page of the range: the head frame of `fa`'s free list,
    /// mapped readable and writable at the first unbacked address, pushed at
    /// the head of the free list as a node of its own. When the mapping fails
    /// the frame goes back to `fa`.
    fn grow(&mut self, fa: &mut StaticPageAllocator, pt: &mut PageTable) -> (r: Result<(), OutOfMemory>)
        requires
            old(self).wf(old(pt), old(fa)),
        ensures
            final(self).wf(final(pt), final(fa)),
            final(self).start_address == old(self).start_address,
            final(self).end_address == old(self).end_address,
            final(pt).root == old(pt).root,
            r is Ok ==> final(self).allocated == old(self).allocated + 4096 && final(self).nodes@ == seq![
                FreeMemoryNode { addr: old(self).top() as u64, size: 4096 },
            ].add(old(self).nodes@),
            r is Ok ==> {
                &&& old(fa).free@.len() > 0
                &&& final(self).frames@ == old(self).frames@.push(old(fa).free@[0])
                &&& is_suffix(old(fa).free@.drop_first(), final(fa).free@)
                &&& is_suffix(old(fa).free@, final(fa).free@)
                &&& walk_page(final(fa).mem, final(pt).root as int, old(self).top() / 4096) == Some(
                    leaf_word(rw(), old(fa).free@[0] as int / 4096),
                )
            },
            r is Ok && tables_present(old(fa).mem, old(pt).root as int, old(self).top() / 4096) ==> final(fa).free@
                == old(fa).free@.drop_first(),
            r is Err ==> final(self).allocated == old(self).allocated && final(self).nodes@ == old(self).nodes@
                && final(self).frames@ == old(self).frames@,
            r is Err ==> old(self).top() + 4096 > old(self).end_address.0 || old(fa).free@.len() < 3,
            r is Err ==> final(fa).free@.len() <= old(fa).free@.len(),
            r is Err && tables_present(old(fa).mem, old(pt).root as int, old(self).top() / 4096) ==> old(self).top()
                + 4096 > old(self).end_address.0 || old(fa).free@.len() == 0,
    {
        if self.end_address.0 - self.start_address.0 - self.allocated < PAGE_SIZE {
            return Err(OutOfMemory);
        }
        let ghost fa0 = *fa;
        let ghost pt0 = *pt;
        let frame = match fa.kalloc() {
            Ok(f) => f,
            Err(_) => return Err(OutOfMemory),
        };
        proof {
            lemma_kalloc_keeps_table(*pt, fa0, *fa);
            assert(fa0.is_frame(frame.0 as int));
            assert(!fa.free@.contains(frame.0)) by {
                if fa.free@.contains(frame.0) {
                    let j = choose|j: int| 0 <= j < fa.free@.len() && fa.free@[j] == frame.0;
                    assert(fa0.free@[j + 1] == fa0.free@[0]);
                }
            }
        }
        let ghost fa1 = *fa;
        let va = self.start_address.add_offset(self.allocated);
        let perm = PTEPermission::read().union(PTEPermission::write());
        proof {
            lemma_perms();
            assert(va.0 % 4096 == 0);
            assert(va.0 as int / 4096 == self.top() / 4096);
        }
        match pt.map_pages(fa, va, frame, PAGE_SIZE, perm, 0) {
            Ok(()) => {},
            Err(_) => {
                let ghost fa2 = *fa;
                proof {
                    assert(!fa2.free@.contains(frame.0)) by {
                        if fa2.free@.contains(frame.0) {
                            lemma_suffix_contains(fa1.free@, fa2.free@, frame.0);
                        }
                    }
                    assert(!pt.tables@.contains_key(frame.0)) by {
                        if pt.tables@.contains_key(frame.0) {
                            assert(pt0.tables@.contains_key(frame.0) || fa1.free@.contains(frame.0));
                        }
                    }
                }
                fa.kfree(frame);
                proof {
                    lemma_kfree_keeps_table(*pt, fa2, *fa, frame.0);
                    assert forall|j: int| 0 <= j < self.frames@.len() implies fa.is_frame(#[trigger] self.frames@[j] as int)
                        && !fa.free@.contains(self.frames@[j]) by {
                        assert(!fa0.free@.contains(self.frames@[j]));
                        if fa1.free@.contains(self.frames@[j]) {
                            lemma_suffix_contains(fa0.free@, fa1.free@, self.frames@[j]);
                        }
                        if fa2.free@.contains(self.frames@[j]) {
                            lemma_suffix_contains(fa1.free@, fa2.free@, self.frames@[j]);
                        }
                        if self.frames@[j] == frame.0 {
                            assert(fa0.free@.contains(frame.0));
                        }
                        if fa.free@.contains(self.frames@[j]) {
                            let k = choose|k: int| 0 <= k < fa.free@.len() && fa.free@[k] == self.frames@[j];
                            if k > 0 {
                                assert(fa2.free@[k - 1] == self.frames@[j]);
                            }
                        }
                    }
                    assert forall|j: int| 0 <= j < self.allocated / 4096 implies #[trigger] walk_page(
                        fa.mem,
                        pt.root as int,
                        self.start_address.0 / 4096 + j,
                    ) == Some(leaf_word(rw(), self.frames@[j] as int / 4096)) by {
                        let q = self.start_address.0 / 4096 + j;
                        assert(is_page(q));
                        assert(walk_page(fa1.mem, pt.root as int, q) == walk_page(fa0.mem, pt.root as int, q));
                        assert(walk_page(fa2.mem, pt.root as int, q) == walk_page(fa1.mem, pt.root as int, q));
                    }
                    if tables_present(fa0.mem, pt0.root as int, self.top() / 4096) {
                        assert(tables_present(fa1.mem, pt0.root as int, self.top() / 4096));
                    }
                }
                return Err(OutOfMemory);
            },
        }
        let ghost fa2 = *fa;
        let ghost old_nodes = self.nodes@;
        let ghost old_alloc = self.allocated;
        let ghost old_frames = self.frames@;
        self.allocated = self.allocated + PAGE_SIZE;
        self.nodes.insert(0, FreeMemoryNode { addr: va.0, size: PAGE_SIZE });
        proof {
            self.frames@ = old_frames.push(frame.0);
            assert(self.nodes@ =~= seq![FreeMemoryNode { addr: va.0, size: 4096 }].add(old_nodes));
            assert forall|k: int| 0 <= k < self.nodes@.len() implies {
                &&& self.start_address.0 <= (#[trigger] self.nodes@[k]).addr
                &&& self.nodes@[k].addr + self.nodes@[k].size <= self.top()
                &&& self.nodes@[k].size >= 16
            } by {
                if k > 0 {
                    assert(self.nodes@[k] == old_nodes[k - 1]);
                }
            }
            assert(!fa.free@.contains(frame.0)) by {
                if fa.free@.contains(frame.0) {
                    lemma_suffix_contains(fa1.free@, fa.free@, frame.0);
                }
            }
            assert forall|j: int| 0 <= j < self.frames@.len() implies fa.is_frame(#[trigger] self.frames@[j] as int)
                && !fa.free@.contains(self.frames@[j]) by {
                if j < old_frames.len() {
                    assert(self.frames@[j] == old_frames[j]);
                    assert(!fa0.free@.contains(old_frames[j]));
                    if fa1.free@.contains(old_frames[j]) {
                        lemma_suffix_contains(fa0.free@, fa1.free@, old_frames[j]);
                    }
                    if fa.free@.contains(old_frames[j]) {
                        lemma_suffix_contains(fa1.free@, fa.free@, old_frames[j]);
                    }
                }
            }
            assert(self.frames@.no_duplicates()) by {
                assert forall|a: int, b: int| 0 <= a < self.frames@.len() && 0 <= b < self.frames@.len() && a != b
                    implies self.frames@[a] != self.frames@[b] by {
                    if a == old_frames.len() && b < old_frames.len() {
                        assert(!fa0.free@.contains(old_frames[b]));
                        assert(fa0.free@.contains(frame.0));
                    }
                    if b == old_frames.len() && a < old_frames.len() {
                        assert(!fa0.free@.contains(old_frames[a]));
                        assert(fa0.free@.contains(frame.0));
                    }
                }
            }
            let p_new = va.0 as int / 4096;
            assert(p_new == self.start_address.0 / 4096 + old_alloc / 4096);
            assert(maps_range(fa.mem, pt.root as int, p_new, frame.0 as int / 4096, 1, perm.0));
            assert(walk_page(fa.mem, pt.root as int, p_new + 0) == Some(leaf_word(perm.0, frame.0 as int / 4096 + 0)));
            assert forall|j: int| 0 <= j < self.allocated / 4096 implies #[trigger] walk_page(
                fa.mem,
                pt.root as int,
                self.start_address.0 / 4096 + j,
            ) == Some(leaf_word(rw(), self.frames@[j] as int / 4096)) by {
                if j < old_alloc / 4096 {
                    let q = self.start_address.0 / 4096 + j;
                    assert(is_page(q));
                    assert(walk_page(fa1.mem, pt.root as int, q) == walk_page(fa0.mem, pt.root as int, q));
                    assert(walk_page(fa.mem, pt.root as int, q) == walk_page(fa1.mem, pt.root as int, q));
                } else {
                    assert(j == old_alloc / 4096);
                }
            }
            if tables_present(fa0.mem, pt0.root as int, old_alloc / 4096 + self.start_address.0 / 4096) {
                assert(tables_present(fa1.mem, pt0.root as int, p_new));
            }
            assert(fa1.free@ == fa0.free@.drop_first());
            lemma_suffix_trans(fa0.free@, fa1.free@, fa.free@);
        }
        Ok(())
    }
}

impl MyGlobalAllocator {
    /// Builds the heap over `[start_addr, end_addr)`: one frame from `fa`,
    /// mapped readable and writable at `start_addr`, is its only free node.
    pub fn init(
        fa: &mut StaticPageAllocator,
        pt: &mut PageTable,
        start_addr: VirtualAddr,
        end_addr: VirtualAddr,
    ) -> (r: Result<MyGlobalAllocator, OutOfMemory>)
        requires
            old(pt).wf(old(fa)),
            start_addr.0 % 4096 == 0,
            start_addr.0 <= end_addr.0 <= MAX_VIRTUAL_ADDR,
        ensures
            final(pt).wf(final(fa)),
            final(pt).root == old(pt).root,
            r matches Ok(h) ==> {
                &&& h.wf(final(pt), final(fa))
                &&& h.start_address == start_addr
                &&& h.end_address == end_addr
                &&& h.allocated == 4096
                &&& h.nodes@ == seq![FreeMemoryNode { addr: start_addr.0, size: 4096 }]
                &&& h.frames@ == seq![old(fa).free@[0]]
                &&& is_suffix(old(fa).free@.drop_first(), final(fa).free@)
                &&& walk_page(final(fa).mem, final(pt).root as int, start_addr.0 as int / 4096) == Some(
                    leaf_word(rw(), old(fa).free@[0] as int / 4096),
                )
            },
            r is Err ==> start_addr.0 + 4096 > end_addr.0 || old(fa).free@.len() < 3,
            r is Err && tables_present(old(fa).mem, old(pt).root as int, start_addr.0 as int / 4096) ==> start_addr.0 + 4096
                > end_addr.0 || old(fa).free@.len() == 0,
    {
        let mut h = MyGlobalAllocator {
            start_address: start_addr,
            end_address: end_addr,
            allocated: 0,
            nodes: Vec::new(),
            frames: Ghost(Seq::empty()),
        };
        match h.grow(fa, pt) {
            Ok(()) => {
                proof {
                    assert(h.nodes@ =~= seq![FreeMemoryNode { addr: start_addr.0, size: 4096 }]);
                    assert(h.frames@ =~= seq![old(fa).free@[0]]);
                }
                Ok(h)
            },
            Err(e) => Err(e),
        }
    }

    /// Hands out `size` bytes (rounded up to whole headers) aligned to
    /// `align`, first fit from the head of the free list. When nothing fits the
    /// heap grows by one page and tries again, until a node fits or no page can
    /// be had. A request that a fresh page can hold is met after exactly one
    /// page of growth when the frames and the range allow it.
    pub fn allocate(&mut self, fa: &mut StaticPageAllocator, pt: &mut PageTable, size: u64, align: u64) -> (r: Result<u64, OutOfMemory>)
        requires
            old(self).wf(old(pt), old(fa)),
            align > 0,
            size + 15 <= u64::MAX,
        ensures
            final(self).wf(final(pt), final(fa)),
            final(self).start_address == old(self).start_address,
            final(self).end_address == old(self).end_address,
            final(pt).root == old(pt).root,
            final(self).allocated >= old(self).allocated,
            (final(self).allocated - old(self).allocated) % 4096 == 0,
            ({
                let g = ((final(self).allocated - old(self).allocated) / 4096) as nat;
                let ns = grown(old(self).nodes@, old(self).top(), g);
                &&& r matches Ok(a) ==> growth_needed(old(self).nodes@, old(self).top(), alloc_size(size as int), align as int, g)
                    && fit_result(ns, alloc_size(size as int), align as int) == Some((final(self).nodes@, a))
                &&& r is Err ==> final(self).nodes@ == ns
                    && (forall|h: nat| h <= g ==> #[trigger] first_fit(grown(old(self).nodes@, old(self).top(), h), alloc_size(size as int), align as int) is None)
                    && (final(self).top() + 4096 > final(self).end_address.0 || final(fa).free@.len() < 3)
            }),
            final(self).frames@.subrange(0, old(self).frames@.len() as int) == old(self).frames@,
            forall|j: int|
                old(self).frames@.len() <= j < final(self).frames@.len() ==> old(fa).free@.contains(
                    #[trigger] final(self).frames@[j],
                ),
            old(fa).free@.len() == 0 ==> final(self).allocated == old(self).allocated,
            r is Ok && final(self).allocated == old(self).allocated + 4096 && tables_present(
                old(fa).mem,
                old(pt).root as int,
                old(self).top() / 4096,
            ) ==> final(fa).free@ == old(fa).free@.drop_first(),
            r is Ok && final(self).allocated == old(self).allocated ==> *final(fa) == *old(fa) && *final(pt) == *old(pt),
            ({
                &&& first_fit(old(self).nodes@, alloc_size(size as int), align as int) is None
                &&& fits(FreeMemoryNode { addr: old(self).top() as u64, size: 4096 }, alloc_size(size as int), align as int)
                &&& old(self).top() + 4096 <= old(self).end_address.0
                &&& old(fa).free@.len() >= 3 || (old(fa).free@.len() >= 1 && tables_present(
                    old(fa).mem,
                    old(pt).root as int,
                    old(self).top() / 4096,
                ))
            }) ==> r is Ok && final(self).allocated == old(self).allocated + 4096,
    {
        let asz = round_to_header(size);
        let ghost nodes0 = self.nodes@;
        let ghost top0 = self.top();
        let ghost alloc0 = self.allocated;
        proof {
            assert(self.frames@.subrange(0, old(self).frames@.len() as int) =~= old(self).frames@);
            assert(fa.free@ =~= fa.free@.subrange(0, fa.free@.len() as int));
        }
        loop
            invariant
                self.wf(pt, fa),
                self.start_address == old(self).start_address,
                self.end_address == old(self).end_address,
                pt.root == old(pt).root,
                align > 0,
                asz == alloc_size(size as int),
                asz % 16 == 0,
                nodes0 == old(self).nodes@,
                top0 == old(self).top(),
                alloc0 == old(self).allocated,
                self.allocated >= alloc0,
                (self.allocated - alloc0) % 4096 == 0,
                self.top() == top0 + (self.allocated - alloc0),
                self.nodes@ == grown(nodes0, top0, ((self.allocated - alloc0) / 4096) as nat),
                forall|h: nat| h < (self.allocated - alloc0) / 4096 ==> #[trigger] first_fit(grown(nodes0, top0, h), asz as int, align as int) is None,
                self.allocated == alloc0 ==> *fa == *old(fa) && *pt == *old(pt),
                is_suffix(old(fa).free@, fa.free@),
                self.frames@.len() >= old(self).frames@.len(),
                self.frames@.subrange(0, old(self).frames@.len() as int) == old(self).frames@,
                forall|j: int|
                    old(self).frames@.len() <= j < self.frames@.len() ==> old(fa).free@.contains(#[trigger] self.frames@[j]),
                old(fa).free@.len() == 0 ==> self.allocated == alloc0,
                self.allocated == alloc0 + 4096 && tables_present(old(fa).mem, old(pt).root as int, top0 / 4096) ==> fa.free@
                    == old(fa).free@.drop_first(),
            decreases self.end_address.0 - self.top(),
        {
            let ghost g = ((self.allocated - alloc0) / 4096) as nat;
            match self.take_first_fit(asz, align) {
                Some(a) => {
                    proof {
                        if first_fit(nodes0, asz as int, align as int) is None && fits(
                            FreeMemoryNode { addr: top0 as u64, size: 4096 },
                            asz as int,
                            align as int,
                        ) {
                            lemma_growth_once(nodes0, top0, asz as int, align as int, g);
                        }
                    }
                    return Ok(a);
                },
                None => {},
            }
            proof {
                assert(first_fit(grown(nodes0, top0, g), asz as int, align as int) is None);
            }
            let ghost fa_before = *fa;
            let ghost frames_before = self.frames@;
            match self.grow(fa, pt) {
                Ok(()) => {},
                Err(_) => {
                    proof {
                        if first_fit(nodes0, asz as int, align as int) is None && fits(
                            FreeMemoryNode { addr: top0 as u64, size: 4096 },
                            asz as int,
                            align as int,
                        ) && g >= 1 {
                            lemma_growth_once(nodes0, top0, asz as int, align as int, 1);
                            assert(first_fit(grown(nodes0, top0, 1), asz as int, align as int) is Some);
                        }
                    }
                    return Err(OutOfMemory);
                },
            }
            proof {
                lemma_suffix_trans(old(fa).free@, fa_before.free@, fa.free@);
                assert(self.frames@.subrange(0, old(self).frames@.len() as int) =~= old(self).frames@) by {
                    assert(frames_before.subrange(0, old(self).frames@.len() as int) == old(self).frames@);
                    assert(self.frames@ == frames_before.push(fa_before.free@[0]));
                    assert forall|j: int| 0 <= j < old(self).frames@.len() implies self.frames@[j] == old(self).frames@[j] by {
                        assert(self.frames@[j] == frames_before[j]);
                        assert(frames_before.subrange(0, old(self).frames@.len() as int)[j] == frames_before[j]);
                    }
                }
                assert forall|j: int| old(self).frames@.len() <= j < self.frames@.len() implies old(fa).free@.contains(
                    #[trigger] self.frames@[j],
                ) by {
                    if j < frames_before.len() {
                        assert(self.frames@[j] == frames_before[j]);
                    } else {
                        assert(fa_before.free@.contains(fa_before.free@[0]));
                        lemma_suffix_contains(old(fa).free@, fa_before.free@, fa_before.free@[0]);
                    }
                }
                assert(self.nodes@ =~= grown(nodes0, top0, g + 1));
                assert forall|h: nat| h < g + 1 implies #[trigger] first_fit(grown(nodes0, top0, h), asz as int, align as int) is None by {
                    if h < g {
                        assert(first_fit(grown(nodes0, top0, h), asz as int, align as int) is None);
                    }
                }
            }
        }
    }

    /// Frees `[ptr, ptr + size)` (size rounded up to whole headers): merged
    /// into the first node that touches it, else pushed at the head as a node
    /// of its own. A region too small for a header with no node to merge into
    /// could never be tracked again: freeing one is a caller bug.
    pub fn deallocate(&mut self, ptr: u64, size: u64)
        requires
            old(self).heap_ok(),
            size + 15 <= u64::MAX,
            old(self).start_address.0 <= ptr,
            ptr + alloc_size(size as int) <= old(self).top(),
            alloc_size(size as int) >= HEADER_SIZE || first_adjacent_from(old(self).nodes@, ptr as int, alloc_size(size as int), 0) is Some,
        ensures
            final(self).heap_ok(),
            final(self).start_address == old(self).start_address,
            final(self).end_address == old(self).end_address,
            final(self).allocated == old(self).allocated,
            final(self).nodes@ == dealloc_spec(old(self).nodes@, ptr as int, alloc_size(size as int)),
    {
        let asz = round_to_header(size);
        let end = ptr + asz;
        let mut i: usize = 0;
        while i < self.nodes.len()
            invariant
                self.nodes@ == old(self).nodes@,
                self.start_address == old(self).start_address,
                self.end_address == old(self).end_address,
                self.allocated == old(self).allocated,
                self.heap_ok(),
                end == ptr + asz,
                asz == alloc_size(size as int),
                ptr + asz <= self.top(),
                self.start_address.0 <= ptr,
                0 <= i <= self.nodes@.len(),
                first_adjacent_from(self.nodes@, ptr as int, asz as int, 0) == first_adjacent_from(self.nodes@, ptr as int, asz as int, i as int),
            decreases self.nodes@.len() - i,
        {
            let n = self.nodes[i];
            proof {
                assert(nodes_ok(self.nodes@, self.start_address.0 as int, self.top()));
                assert(self.start_address.0 <= self.nodes@[i as int].addr);
            }
            if n.addr == end {
                self.nodes.set(i, FreeMemoryNode { addr: ptr, size: n.size + asz });
                proof {
                    assert(self.nodes@ =~= dealloc_spec(old(self).nodes@, ptr as int, asz as int));
                    assert forall|k: int| 0 <= k < self.nodes@.len() implies {
                        &&& self.start_address.0 <= (#[trigger] self.nodes@[k]).addr
                        &&& self.nodes@[k].addr + self.nodes@[k].size <= self.top()
                        &&& self.nodes@[k].size >= 16
                    } by {
                        assert(old(self).start_address.0 <= old(self).nodes@[k].addr);
                        assert(old(self).nodes@[k].addr + old(self).nodes@[k].size <= old(self).top());
                        if k == i {
                            assert(n == old(self).nodes@[k]);
                            assert(n.size >= 16);
                        }
                    }
                }
                return;
            }
            if n.addr + n.size == ptr {
                self.nodes.set(i, FreeMemoryNode { addr: n.addr, size: n.size + asz });
                proof {
                    assert(self.nodes@ =~= dealloc_spec(old(self).nodes@, ptr as int, asz as int));
                    assert forall|k: int| 0 <= k < self.nodes@.len() implies {
                        &&& self.start_address.0 <= (#[trigger] self.nodes@[k]).addr
                        &&& self.nodes@[k].addr + self.nodes@[k].size <= self.top()
                        &&& self.nodes@[k].size >= 16
                    } by {
                        assert(old(self).start_address.0 <= old(self).nodes@[k].addr);
                        assert(old(self).nodes@[k].addr + old(self).nodes@[k].size <= old(self).top());
                        if k == i {
                            assert(n == old(self).nodes@[k]);
                            assert(n.size >= 16);
                        }
                    }
                }
                return;
            }
            i = i + 1;
        }
        self.nodes.insert(0, FreeMemoryNode { addr: ptr, size: asz });
        proof {
            assert(self.nodes@ =~= dealloc_spec(old(self).nodes@, ptr as int, asz as int));
            assert forall|k: int| 0 <= k < self.nodes@.len() implies {
                &&& self.start_address.0 <= (#[trigger] self.nodes@[k]).addr
                &&& self.nodes@[k].addr + self.nodes@[k].size <= self.top()
                &&& self.nodes@[k].size >= 16
            } by {
                if k > 0 {
                    assert(self.nodes@[k] == old(self).nodes@[k - 1]);
                }
            }
        }
    }
}

/// Builds the kernel heap over its reserved virtual range.
pub fn init_heap(fa: &mut StaticPageAllocator, pt: &mut PageTable) -> (r: Result<MyGlobalAllocator, OutOfMemory>)
    requires
        old(pt).wf(old(fa)),
    ensures
        final(pt).wf(final(fa)),
        final(pt).root == old(pt).root,
        r matches Ok(h) ==> {
            &&& h.wf(final(pt), final(fa))
            &&& h.start_address.0 == HEAP_START
            &&& h.end_address.0 == HEAP_END
            &&& h.allocated == 4096
            &&& h.nodes@ == seq![FreeMemoryNode { addr: HEAP_START, size: 4096 }]
            &&& h.frames@ == seq![old(fa).free@[0]]
            &&& is_suffix(old(fa).free@.drop_first(), final(fa).free@)
            &&& walk_page(final(fa).mem, final(pt).root as int, HEAP_START as int / 4096) == Some(
                leaf_word(rw(), old(fa).free@[0] as int / 4096),
            )
        },
        old(fa).free@.len() >= 3 ==> r is Ok,
        old(fa).free@.len() >= 1 && tables_present(old(fa).mem, old(pt).root as int, HEAP_START as int / 4096) ==> r is Ok,
{
    MyGlobalAllocator::init(fa, pt, VirtualAddr::new(HEAP_START), VirtualAddr::new(HEAP_END))
}

} // verus!
