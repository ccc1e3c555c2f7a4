//! Virtual and physical addresses of the Sv39 scheme.
use vstd::prelude::*;

verus! {

/// Size of one page frame, in bytes.
pub const PAGE_SIZE: u64 = 4096;

/// Highest virtual address that can be named (38 bits, one bit of sign headroom).
pub const MAX_VIRTUAL_ADDR: u64 = 0x40_0000_0000;

/// Bound on physical addresses: a 44-bit frame number and a 12-bit offset.
pub const MAX_PHYSICAL_ADDR: u64 = 0x100_0000_0000_0000;

/// `a` rounded down to a page boundary.
pub open spec fn round_down(a: int) -> int {
    a - a % 4096
}

/// `a` rounded up to a page boundary.
pub open spec fn round_up(a: int) -> int {
    if a % 4096 == 0 { a } else { a - a % 4096 + 4096 }
}

/// Rounds `addr` down to the start of its page.
pub fn page_round_down(addr: u64) -> (r: u64)
    ensures
        r == round_down(addr as int),
{
    let r = addr & !(PAGE_SIZE - 1);
    assert(addr & !0xfffu64 == addr - addr % 4096) by (bit_vector);
    r
}

/// Rounds `addr` up to the next page boundary (itself when already aligned).
pub fn page_round_up(addr: u64) -> (r: u64)
    requires
        addr + 4095 <= u64::MAX,
    ensures
        r == round_up(addr as int),
{
    page_round_down(addr + (PAGE_SIZE - 1))
}


/// The 9-bit index that selects the entry of the table at `level` (0 is the
/// innermost level) for the page with number `page`.
pub open spec fn page_index(page: int, level: int) -> int {
    if level == 0 {
        page % 512
    } else if level == 1 {
        (page / 512) % 512
    } else {
        (page / 512 / 512) % 512
    }
}

/// The 9-bit index that selects the entry of the table at `level` for `va`.
pub open spec fn vpn_of(va: u64, level: int) -> int {
    page_index(va as int / 4096, level)
}

/// The 12-bit offset of an address within its page.
pub open spec fn offset_of(a: u64) -> int {
    a as int % 4096
}

/// The 44-bit frame number of a physical address.
pub open spec fn ppn_of(pa: u64) -> int {
    (pa as int / 4096) % 0x1000_0000_0000
}

/// A virtual address (`0 <= addr <= MAX_VIRTUAL_ADDR` when well formed).
#[derive(Debug, PartialEq, Eq, Structural, Clone, Copy)]
pub struct VirtualAddr(pub u64);

/// One of the three 9-bit table indices of a virtual address.
#[derive(Debug, PartialEq, Eq, Structural, Clone, Copy)]
pub struct VirtualPageNumber(pub u16);

/// The 12-bit offset of an address within its page.
#[derive(Debug, PartialEq, Eq, Structural, Clone, Copy)]
pub struct PageOffset(pub u16);

/// A physical address (`addr < MAX_PHYSICAL_ADDR` when well formed).
#[derive(Debug, PartialEq, Eq, Structural, Clone, Copy)]
pub struct PhysicalAddr(pub u64);

/// A physical page frame number.
#[derive(Debug, PartialEq, Eq, Structural, Clone, Copy)]
pub struct Ppn(pub u64);

impl VirtualAddr {
    pub open spec fn wf(&self) -> bool {
        self.0 <= MAX_VIRTUAL_ADDR
    }

    /// Builds a virtual address; addresses beyond the architecture's range are a caller bug.
    pub fn new(val: u64) -> (r: Self)
        requires
            val <= MAX_VIRTUAL_ADDR,
        ensures
            r.0 == val,
            r.wf(),
    {
        VirtualAddr(val)
    }

    pub fn is_align(&self, align: u64) -> (r: bool)
        requires
            align > 0,
        ensures
            r == (self.0 % align == 0),
    {
        self.0 % align == 0
    }

    /// The address `offset` bytes further; going past the maximum is a caller bug.
    pub fn add_offset(self, offset: u64) -> (r: Self)
        requires
            self.0 + offset <= MAX_VIRTUAL_ADDR,
        ensures
            r.0 == self.0 + offset,
            r.wf(),
    {
        VirtualAddr(self.0 + offset)
    }

    /// Same as `add_offset`.
    pub fn offset_by(self, offset: u64) -> (r: Self)
        requires
            self.0 + offset <= MAX_VIRTUAL_ADDR,
        ensures
            r.0 == self.0 + offset,
            r.wf(),
    {
        self.add_offset(offset)
    }

    /// The address `offset` bytes lower; going below zero is a caller bug.
    pub fn sub_offset(self, offset: u64) -> (r: Self)
        requires
            offset <= self.0,
        ensures
            r.0 == self.0 - offset,
    {
        VirtualAddr(self.0 - offset)
    }

    pub fn get(&self) -> (r: &u64)
        ensures
            *r == self.0,
    {
        &self.0
    }

    pub fn page_round_down(self) -> (r: Self)
        ensures
            r.0 == round_down(self.0 as int),
            self.wf() ==> r.wf(),
    {
        VirtualAddr(page_round_down(self.0))
    }

    pub fn page_round_up(self) -> (r: Self)
        requires
            self.wf(),
        ensures
            r.0 == round_up(self.0 as int),
            r.wf(),
    {
        VirtualAddr(page_round_up(self.0))
    }

    /// The three table indices, innermost level first.
    pub fn virtual_page_numbers(&self) -> (r: [VirtualPageNumber; 3])
        ensures
            r@.len() == 3,
            forall|l: int| 0 <= l < 3 ==> r@[l].0 == vpn_of(self.0, l),
    {
        let x = self.0;
        let v0 = ((x >> 12u64) & 0x1ffu64) as u16;
        let v1 = ((x >> 21u64) & 0x1ffu64) as u16;
        let v2 = ((x >> 30u64) & 0x1ffu64) as u16;
        assert((x >> 12u64) & 0x1ffu64 == (x / 4096) % 512) by (bit_vector);
        assert((x >> 21u64) & 0x1ffu64 == (x / 4096 / 512) % 512) by (bit_vector);
        assert((x >> 30u64) & 0x1ffu64 == (x / 4096 / 512 / 512) % 512) by (bit_vector);
        let r = [VirtualPageNumber(v0), VirtualPageNumber(v1), VirtualPageNumber(v2)];
        assert(r@[0].0 == vpn_of(x, 0));
        assert(r@[1].0 == vpn_of(x, 1));
        assert(r@[2].0 == vpn_of(x, 2));
        r
    }

    pub fn page_offset(&self) -> (r: PageOffset)
        ensures
            r.0 == offset_of(self.0),
    {
        let x = self.0;
        assert(x & 0xfffu64 == x % 4096) by (bit_vector);
        PageOffset((x & 0xfff) as u16)
    }
}

impl PhysicalAddr {
    pub open spec fn wf(&self) -> bool {
        self.0 < MAX_PHYSICAL_ADDR
    }

    /// Builds a physical address; one beyond the frame-number field is a caller bug.
    pub fn new(val: u64) -> (r: Self)
        requires
            val < MAX_PHYSICAL_ADDR,
        ensures
            r.0 == val,
            r.wf(),
    {
        PhysicalAddr(val)
    }

    pub fn is_align(&self, align: u64) -> (r: bool)
        requires
            align > 0,
        ensures
            r == (self.0 % align == 0),
    {
        self.0 % align == 0
    }

    pub fn page_round_down(self) -> (r: Self)
        ensures
            r.0 == round_down(self.0 as int),
            self.wf() ==> r.wf(),
    {
        PhysicalAddr(page_round_down(self.0))
    }

    pub fn page_round_up(self) -> (r: Self)
        requires
            self.wf(),
        ensures
            r.0 == round_up(self.0 as int),
            self.0 <= MAX_PHYSICAL_ADDR - PAGE_SIZE ==> r.wf(),
    {
        PhysicalAddr(page_round_up(self.0))
    }

    pub fn page_offset(&self) -> (r: PageOffset)
        ensures
            r.0 == offset_of(self.0),
    {
        let x = self.0;
        assert(x & 0xfffu64 == x % 4096) by (bit_vector);
        PageOffset((x & 0xfff) as u16)
    }

    /// The frame number: bits 12 to 55 of the address.
    pub fn ppn(&self) -> (r: Ppn)
        ensures
            r.0 == ppn_of(self.0),
    {
        let x = self.0;
        assert((x >> 12u64) & 0xfff_ffff_ffffu64 == (x / 4096) % 0x1000_0000_0000) by (bit_vector);
        Ppn((x >> 12) & 0xfff_ffff_ffff)
    }
}

impl Ppn {
    pub fn get(&self) -> (r: u64)
        ensures
            r == self.0,
    {
        self.0
    }
}

} // verus!
