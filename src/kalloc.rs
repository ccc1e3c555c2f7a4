//! Physical memory and the allocator of its page frames.
use vstd::prelude::*;
use crate::physical_memory_manager::MyMemoryRegion;
use crate::addr::{page_round_down, page_round_up, round_down, round_up, PhysicalAddr, MAX_PHYSICAL_ADDR, PAGE_SIZE};

verus! {

/// Words in one page frame.
pub const FRAME_WORDS: u64 = 512;

/// The frames managed for a region: from its start rounded up to its end rounded down.
pub open spec fn region_first_frame(region: MyMemoryRegion) -> int {
    round_up(region.address as int)
}

pub open spec fn region_frame_count(region: MyMemoryRegion) -> nat {
    let lo = round_up(region.address as int);
    let hi = round_down(region.address + region.size);
    if lo < hi { ((hi - lo) / 4096) as nat } else { 0 }
}

/// The frames `start, start + 4096, ...`, `n` of them, lowest first.
pub open spec fn frames_from(start: int, n: nat) -> Seq<u64> {
    Seq::new(n, |i: int| (start + 4096 * i) as u64)
}

/// The word that `memset` writes for a byte value.
pub open spec fn fill_word(value: u8) -> u64 {
    (value as int * 0x0101_0101_0101_0101) as u64
}

/// The contents of physical memory over `[base, base + 8 * words.len())`, one
/// 64-bit word per eight bytes.
pub struct PhysicalMemory {
    pub base: u64,
    pub words: Vec<u64>,
}

impl PhysicalMemory {
    /// The end of the memory, one past its last byte.
    pub open spec fn end(&self) -> int {
        self.base + 8 * self.words@.len()
    }

    /// Whether the eight bytes at `a` lie in the memory, on a word boundary.
    pub open spec fn has_word(&self, a: int) -> bool {
        self.base <= a && a + 8 <= self.end() && (a - self.base) % 8 == 0
    }

    pub open spec fn index_of(&self, a: int) -> int {
        (a - self.base) / 8
    }

    /// The word at address `a`.
    pub open spec fn word(&self, a: int) -> u64 {
        self.words@[self.index_of(a)]
    }

    pub fn read_word(&self, addr: u64) -> (r: u64)
        requires
            self.has_word(addr as int),
        ensures
            r == self.word(addr as int),
    {
        let len = self.words.len();
        assert((addr - self.base) / 8 < len);
        self.words[((addr - self.base) / 8) as usize]
    }

    pub fn write_word(&mut self, addr: u64, value: u64)
        requires
            old(self).has_word(addr as int),
        ensures
            final(self).base == old(self).base,
            final(self).words@ == old(self).words@.update(old(self).index_of(addr as int), value),
    {
        let len = self.words.len();
        assert((addr - self.base) / 8 < len);
        self.words.set(((addr - self.base) / 8) as usize, value);
    }
}

/// Fills `[addr, addr + size)` with the byte `value`.
pub fn memset(mem: &mut PhysicalMemory, addr: u64, size: u64, value: u8)
    requires
        addr % 8 == 0,
        size % 8 == 0,
        old(mem).base % 8 == 0,
        old(mem).base <= addr,
        addr + size <= old(mem).end(),
    ensures
        final(mem).base == old(mem).base,
        final(mem).words@.len() == old(mem).words@.len(),
        forall|i: int|
            0 <= i < old(mem).words@.len() ==> #[trigger] final(mem).words@[i] == if old(mem).index_of(
                addr as int,
            ) <= i < old(mem).index_of(addr as int) + size / 8 {
                fill_word(value)
            } else {
                old(mem).words@[i]
            },
{
    let w = (value as u64) * 0x0101_0101_0101_0101u64;
    let len = mem.words.len();
    assert((addr - mem.base) / 8 + size / 8 <= len);
    let first = ((addr - mem.base) / 8) as usize;
    let n = (size / 8) as usize;
    let mut k: usize = 0;
    while k < n
        invariant
            first + n <= mem.words@.len(),
            len == mem.words@.len(),
            first == old(mem).index_of(addr as int),
            n == size / 8,
            mem.base == old(mem).base,
            mem.words@.len() == old(mem).words@.len(),
            w == fill_word(value),
            0 <= k <= n,
            forall|i: int|
                0 <= i < mem.words@.len() ==> #[trigger] mem.words@[i] == if first <= i < first + k {
                    fill_word(value)
                } else {
                    old(mem).words@[i]
                },
        decreases n - k,
    {
        mem.words.set(first + k, w);
        k = k + 1;
    }
}

/// The free frame list was exhausted.
#[derive(Debug, PartialEq, Eq, Structural, Clone, Copy)]
pub struct Exhausted;

/// Allocator of the page frames of one contiguous physical region. The free
/// list is kept head first; the memory covers exactly the managed range.
pub struct StaticPageAllocator {
    pub start: u64,
    pub end: u64,
    pub free: Vec<u64>,
    pub mem: PhysicalMemory,
}

impl StaticPageAllocator {
    /// Whether `f` is a frame of the managed range.
    pub open spec fn is_frame(&self, f: int) -> bool {
        self.start <= f && f + 4096 <= self.end && f % 4096 == 0
    }

    pub open spec fn wf(&self) -> bool {
        &&& self.start % 4096 == 0
        &&& self.end % 4096 == 0
        &&& self.start <= self.end <= MAX_PHYSICAL_ADDR
        &&& self.mem.base == self.start
        &&& self.mem.end() == self.end
        &&& forall|i: int| 0 <= i < self.free@.len() ==> self.is_frame(#[trigger] self.free@[i] as int)
        &&& self.free@.no_duplicates()
    }

    /// Whether every byte of frame `f` is zero.
    pub open spec fn frame_is_zero(&self, f: int) -> bool {
        forall|k: int| 0 <= k < 512 ==> #[trigger] self.mem.word(f + 8 * k) == 0
    }

    pub fn start_addr(&self) -> (r: u64)
        ensures
            r == self.start,
    {
        self.start
    }

    pub fn end_addr(&self) -> (r: u64)
        ensures
            r == self.end,
    {
        self.end
    }

    /// Takes the frame at the head of the free list and fills it with zeros.
    pub fn kalloc(&mut self) -> (r: Result<PhysicalAddr, Exhausted>)
        requires
            old(self).wf(),
        ensures
            final(self).wf(),
            final(self).start == old(self).start,
            final(self).end == old(self).end,
            final(self).mem.base == old(self).mem.base,
            final(self).mem.words@.len() == old(self).mem.words@.len(),
            old(self).free@.len() == 0 <==> r is Err,
            r is Err ==> *final(self) == *old(self),
            r matches Ok(pa) ==> {
                &&& pa.0 == old(self).free@[0]
                &&& final(self).free@ == old(self).free@.drop_first()
                &&& final(self).frame_is_zero(pa.0 as int)
                &&& forall|a: int|
                    old(self).mem.has_word(a) && !(pa.0 <= a < pa.0 + 4096) ==> #[trigger] final(self).mem.word(a)
                        == old(self).mem.word(a)
            },
    {
        if self.free.len() == 0 {
            return Err(Exhausted);
        }
        let f = self.free.remove(0);
        proof {
            assert(self.is_frame(f as int));
        }
        memset(&mut self.mem, f, PAGE_SIZE, 0);
        proof {
            assert(fill_word(0) == 0);
            assert forall|k: int| 0 <= k < 512 implies #[trigger] self.mem.word(f + 8 * k) == 0 by {
                assert(self.mem.index_of(f + 8 * k) == (f - self.start) / 8 + k);
            }
            assert forall|a: int|
                old(self).mem.has_word(a) && !(f <= a < f + 4096) implies #[trigger] self.mem.word(a)
                == old(self).mem.word(a) by {
                let i = self.mem.index_of(a);
                assert(!(old(self).mem.index_of(f as int) <= i < old(self).mem.index_of(f as int)
                    + 512));
            }
            assert forall|i: int| 0 <= i < self.free@.len() implies self.is_frame(
                #[trigger] self.free@[i] as int,
            ) by {
                assert(self.free@[i] == old(self).free@[i + 1]);
            }
        }
        Ok(PhysicalAddr(f))
    }

    /// Puts the frame at `pa` back at the head of the free list.
    pub fn kfree(&mut self, pa: PhysicalAddr)
        requires
            old(self).wf(),
            pa.0 % 4096 == 0,
            old(self).start <= pa.0 < old(self).end,
            !old(self).free@.contains(pa.0),
        ensures
            final(self).wf(),
            final(self).start == old(self).start,
            final(self).end == old(self).end,
            final(self).mem == old(self).mem,
            final(self).free@ == seq![pa.0].add(old(self).free@),
    {
        self.free.insert(0, pa.0);
        proof {
            assert(self.free@ =~= seq![pa.0].add(old(self).free@));
            assert forall|i: int| 0 <= i < self.free@.len() implies self.is_frame(
                #[trigger] self.free@[i] as int,
            ) by {
                if i > 0 {
                    assert(self.free@[i] == old(self).free@[i - 1]);
                }
            }
        }
    }
}

/// The free list that `init_page_allocator(region)` builds holds each whole
/// frame of the region exactly once, page aligned and inside the region; as
/// `kalloc` hands out the head and fails only on an empty list, exactly that
/// many calls succeed, with distinct frames, and the next one is `Exhausted`.
pub proof fn lemma_frame_round_trip(region: MyMemoryRegion)
    requires
        region.address + region.size <= MAX_PHYSICAL_ADDR,
    ensures
        ({
            let l = frames_from(region_first_frame(region), region_frame_count(region));
            &&& l.len() == region_frame_count(region)
            &&& 4096 * region_frame_count(region) == if round_up(region.address as int) < round_down(region.address + region.size) {
                round_down(region.address + region.size) - round_up(region.address as int)
            } else {
                0
            }
            &&& l.no_duplicates()
            &&& forall|i: int|
                0 <= i < l.len() ==> (#[trigger] l[i]) % 4096 == 0 && region.address <= l[i] && l[i] + 4096
                    <= region.address + region.size
        }),
{
    let lo = round_up(region.address as int);
    let hi = round_down(region.address + region.size);
    let n = region_frame_count(region);
    let l = frames_from(lo, n);
    vstd::arithmetic::div_mod::lemma_fundamental_div_mod(region.address as int, 4096);
    vstd::arithmetic::div_mod::lemma_fundamental_div_mod((region.address + region.size) as int, 4096);
    let y = if region.address % 4096 == 0 {
        region.address as int / 4096
    } else {
        region.address as int / 4096 + 1
    };
    let x = (region.address + region.size) as int / 4096;
    assert(lo == 4096 * y);
    assert(hi == 4096 * x);
    if lo < hi {
        assert(hi - lo == (x - y) * 4096);
        vstd::arithmetic::div_mod::lemma_div_multiples_vanish(x - y, 4096);
    }
    assert forall|i: int| 0 <= i < l.len() implies (#[trigger] l[i]) % 4096 == 0 && region.address <= l[i] && l[i]
        + 4096 <= region.address + region.size by {
        vstd::arithmetic::div_mod::lemma_mod_multiples_vanish(i, lo, 4096);
        assert(l[i] == lo + 4096 * i);
        assert(4096 * i + 4096 <= 4096 * n) by (nonlinear_arith)
            requires
                i < n,
        ;
    }
    assert forall|a: int, b: int| 0 <= a < l.len() && 0 <= b < l.len() && a != b implies l[a] != l[b] by {
        assert(l[a] == lo + 4096 * a);
        assert(l[b] == lo + 4096 * b);
    }
}

/// Builds the allocator of the frames of `region`: every whole frame of it is
/// free, lowest address at the head. The memory starts out zero.
pub fn init_page_allocator(region: MyMemoryRegion) -> (r: StaticPageAllocator)
    requires
        region.address + region.size <= MAX_PHYSICAL_ADDR,
        region_frame_count(region) * 512 <= usize::MAX,
    ensures
        r.wf(),
        r.start == region_first_frame(region),
        r.end == r.start + 4096 * region_frame_count(region),
        r.free@ == frames_from(region_first_frame(region), region_frame_count(region)),
        forall|f: int| r.is_frame(f) ==> #[trigger] r.frame_is_zero(f),
{
    let start = page_round_up(region.address);
    let hi = page_round_down(region.address + region.size);
    let end = if start < hi { hi } else { start };
    let n: u64 = (end - start) / PAGE_SIZE;
    assert(n == region_frame_count(region));
    let nwords: usize = (n * FRAME_WORDS) as usize;
    let mut words: Vec<u64> = Vec::new();
    let mut k: usize = 0;
    while k < nwords
        invariant
            k <= nwords,
            words@.len() == k,
            forall|i: int| 0 <= i < k ==> #[trigger] words@[i] == 0,
        decreases nwords - k,
    {
        words.push(0);
        k = k + 1;
    }
    let mut free: Vec<u64> = Vec::new();
    let mut j: u64 = 0;
    while j < n
        invariant
            j <= n,
            n == region_frame_count(region),
            start == region_first_frame(region),
            end == start + 4096 * n,
            end <= MAX_PHYSICAL_ADDR,
            free@ == frames_from(start as int, j as nat),
        decreases n - j,
    {
        free.push(start + j * PAGE_SIZE);
        j = j + 1;
        assert(free@ =~= frames_from(start as int, j as nat));
    }
    assert(free@.no_duplicates()) by {
        assert forall|a: int, b: int| 0 <= a < free@.len() && 0 <= b < free@.len() && a != b implies free@[a]
            != free@[b] by {
            assert(free@[a] == start + 4096 * a);
            assert(free@[b] == start + 4096 * b);
        }
    }
    let r = StaticPageAllocator { start, end, free, mem: PhysicalMemory { base: start, words } };
    assert forall|f: int| r.is_frame(f) implies #[trigger] r.frame_is_zero(f) by {
        assert forall|k: int| 0 <= k < 512 implies #[trigger] r.mem.word(f + 8 * k) == 0 by {
            assert(r.mem.index_of(f + 8 * k) < nwords);
        }
    }
    r
}

} // verus!
