//! Packed Sv39 page-table entries and their permission bits.
use vstd::prelude::*;
use crate::addr::{PageOffset, PhysicalAddr, Ppn};

verus! {

/// Bit positions of the permission byte.
pub const PTE_BIT_VALID: u64 = 0;
pub const PTE_BIT_READ: u64 = 1;
pub const PTE_BIT_WRITE: u64 = 2;
pub const PTE_BIT_EXECUTE: u64 = 3;
pub const PTE_BIT_USER: u64 = 4;

/// Whether bit `b` of `w` is set.
pub open spec fn bit_set(w: u64, b: u64) -> bool {
    (w >> b) & 1u64 == 1u64
}

/// The frame number held in bits 10 to 53 of an entry.
pub open spec fn entry_ppn(e: u64) -> int {
    (e as int / 1024) % 0x1000_0000_0000
}

/// The permission byte: bits 0 to 7 of an entry.
pub open spec fn entry_perm(e: u64) -> int {
    e as int % 256
}

/// The three-way reading of an entry. A valid entry that is writable but not
/// readable is a reserved encoding and reads as not valid.
pub open spec fn kind_of(e: u64) -> EntryKind {
    if !bit_set(e, 0) || (bit_set(e, 2) && !bit_set(e, 1)) {
        EntryKind::NotValid
    } else if bit_set(e, 1) || bit_set(e, 3) {
        EntryKind::Leaf
    } else {
        EntryKind::Branch(PhysicalAddr((entry_ppn(e) * 4096) as u64))
    }
}

/// Whether `p` makes a leaf once the valid bit is added: readable or executable,
/// and not writable without being readable.
pub open spec fn leaf_perm(p: u8) -> bool {
    (bit_set(p as u64, 1) || bit_set(p as u64, 3)) && !(bit_set(p as u64, 2) && !bit_set(
        p as u64,
        1,
    ))
}

/// Readable and executable.
pub open spec fn rx() -> u8 {
    2u8 | 8u8
}

/// Readable and writable.
pub open spec fn rw() -> u8 {
    2u8 | 4u8
}

pub proof fn lemma_perms()
    ensures
        leaf_perm(rx()),
        leaf_perm(rw()),
        rx() == 10u8,
        rw() == 6u8,
{
    let a = 2u8 | 8u8;
    let b = 2u8 | 4u8;
    assert(a == 10u8 && b == 6u8) by (bit_vector)
        requires
            a == 2u8 | 8u8,
            b == 2u8 | 4u8,
    ;
    assert(((10u8 as u64) >> 1u64) & 1u64 == 1u64 && ((10u8 as u64) >> 2u64) & 1u64 == 0u64) by (bit_vector);
    assert(((6u8 as u64) >> 1u64) & 1u64 == 1u64) by (bit_vector);
}

/// Permission bits of an entry (valid, read, write, execute, user, ...).
#[derive(Debug, PartialEq, Eq, Structural, Clone, Copy)]
pub struct PTEPermission(pub u8);

/// The permission byte as read back from an entry.
pub type Permission = PTEPermission;

impl PTEPermission {
    /// No permission at all.
    pub fn new() -> (r: Self)
        ensures
            r.0 == 0,
    {
        PTEPermission(0)
    }

    pub fn valid() -> (r: Self)
        ensures
            r.0 == 1,
    {
        PTEPermission(0b0000_0001)
    }

    pub fn read() -> (r: Self)
        ensures
            r.0 == 2,
    {
        PTEPermission(0b0000_0010)
    }

    pub fn write() -> (r: Self)
        ensures
            r.0 == 4,
    {
        PTEPermission(0b0000_0100)
    }

    pub fn execute() -> (r: Self)
        ensures
            r.0 == 8,
    {
        PTEPermission(0b0000_1000)
    }

    pub fn user() -> (r: Self)
        ensures
            r.0 == 16,
    {
        PTEPermission(0b0001_0000)
    }

    /// The bits set in either permission.
    pub fn union(self, rhs: Self) -> (r: Self)
        ensures
            r.0 == self.0 | rhs.0,
    {
        PTEPermission(self.0 | rhs.0)
    }
}

/// The three kinds of entry met on a walk.
#[derive(Debug, PartialEq, Eq, Structural, Clone, Copy)]
pub enum EntryKind {
    /// Terminal mapping of a frame.
    Leaf,
    /// Reference to the next-level table at this physical address.
    Branch(PhysicalAddr),
    NotValid,
}

/// One 64-bit page-table entry: bits 0..8 permissions, 8..10 free for software,
/// 10..54 the frame number.
#[derive(Debug, PartialEq, Eq, Structural, Clone, Copy)]
pub struct PageTableEntry(pub u64);

impl PageTableEntry {
    /// Packs a frame number, the two software bits and a permission byte.
    pub fn new(ppn: Ppn, rsw: u8, perm: PTEPermission) -> (r: Self)
        requires
            rsw < 4,
            ppn.0 < 0x1000_0000_0000,
        ensures
            r.0 == perm.0 as int + rsw as int * 256 + ppn.0 as int * 1024,
            entry_ppn(r.0) == ppn.0,
            entry_perm(r.0) == perm.0,
    {
        let p = perm.0 as u64;
        let s = rsw as u64;
        let n = ppn.0;
        assert(p < 256 && s < 4 && n < 0x1000_0000_0000 ==> (p | (s << 8u64) | (n << 10u64)) == p
            + s * 256 + n * 1024) by (bit_vector);
        let v = p | (s << 8) | (n << 10);
        assert(p < 256 && s < 4 && n < 0x1000_0000_0000 ==> (p + s * 256 + n * 1024) / 1024
            % 0x1000_0000_0000 == n && (p + s * 256 + n * 1024) % 256 == p) by (bit_vector);
        PageTableEntry(v)
    }

    /// The all-zero entry, which is not valid.
    pub fn new_zero() -> (r: Self)
        ensures
            r.0 == 0,
            kind_of(r.0) == EntryKind::NotValid,
    {
        assert(!bit_set(0, 0)) by (bit_vector);
        PageTableEntry(0)
    }

    pub fn is_valid(&self) -> (r: bool)
        ensures
            r == bit_set(self.0, 0),
    {
        (self.0 >> PTE_BIT_VALID) & 1 == 1
    }

    pub fn is_read(&self) -> (r: bool)
        ensures
            r == bit_set(self.0, 1),
    {
        (self.0 >> PTE_BIT_READ) & 1 == 1
    }

    pub fn is_write(&self) -> (r: bool)
        ensures
            r == bit_set(self.0, 2),
    {
        (self.0 >> PTE_BIT_WRITE) & 1 == 1
    }

    pub fn is_execute(&self) -> (r: bool)
        ensures
            r == bit_set(self.0, 3),
    {
        (self.0 >> PTE_BIT_EXECUTE) & 1 == 1
    }

    pub fn is_zero(&self) -> (r: bool)
        ensures
            r == (self.0 == 0),
    {
        self.0 == 0
    }

    pub fn perm(&self) -> (r: PTEPermission)
        ensures
            r.0 == entry_perm(self.0),
    {
        let x = self.0;
        assert(x & 0xffu64 == x % 256) by (bit_vector);
        PTEPermission((x & 0xff) as u8)
    }

    /// The frame number held by the entry.
    pub fn ppn(&self) -> (r: Ppn)
        ensures
            r.0 == entry_ppn(self.0),
    {
        let x = self.0;
        assert((x >> 10u64) & 0xfff_ffff_ffffu64 == (x / 1024) % 0x1000_0000_0000) by (bit_vector);
        Ppn((x >> 10) & 0xfff_ffff_ffff)
    }

    /// The physical address made of the entry's frame number and `offset`.
    pub fn convert_to_physical_addr(&self, offset: &PageOffset) -> (r: PhysicalAddr)
        requires
            offset.0 < 4096,
        ensures
            r.0 == entry_ppn(self.0) * 4096 + offset.0,
            r.wf(),
    {
        let n = self.ppn().0;
        let o = offset.0 as u64;
        assert(n < 0x1000_0000_0000 && o < 4096 ==> (o | (n << 12u64)) == n * 4096 + o) by (bit_vector);
        PhysicalAddr(o | (n << 12))
    }

    /// The start of the frame that the entry names.
    pub fn addr_zero_offset(&self) -> (r: PhysicalAddr)
        ensures
            r.0 == entry_ppn(self.0) * 4096,
            r.wf(),
    {
        self.convert_to_physical_addr(&PageOffset(0))
    }

    /// Classifies the entry as not valid, a leaf or a branch.
    pub fn kind(&self) -> (r: EntryKind)
        ensures
            r == kind_of(self.0),
    {
        if !self.is_valid() || (self.is_write() && !self.is_read()) {
            return EntryKind::NotValid;
        }
        if self.is_read() || self.is_execute() {
            return EntryKind::Leaf;
        }
        EntryKind::Branch(self.addr_zero_offset())
    }
}

} // verus!
