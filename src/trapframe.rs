//! The per-process save area for user registers, one page in size.
use vstd::prelude::*;

verus! {

/// Registers saved on entry from user mode and the kernel values restored on
/// the way back.
#[derive(Debug, PartialEq, Eq, Structural, Clone, Copy)]
pub struct TrapFrame {
    /// Kernel page table.
    pub kernel_satp: u64,
    /// Top of the process's kernel stack.
    pub kernel_sp: u64,
    /// User trap handler.
    pub kernel_trap: u64,
    /// Saved user program counter.
    pub epc: u64,
    /// Saved kernel tp.
    pub kernel_hartid: u64,
    pub ra: u64,
    pub sp: u64,
    pub gp: u64,
    pub tp: u64,
    pub t0: u64,
    pub t1: u64,
    pub t2: u64,
    pub s0: u64,
    pub s1: u64,
    pub a0: u64,
    pub a1: u64,
    pub a2: u64,
    pub a3: u64,
    pub a4: u64,
    pub a5: u64,
    pub a6: u64,
    pub a7: u64,
    pub s2: u64,
    pub s3: u64,
    pub s4: u64,
    pub s5: u64,
    pub s6: u64,
    pub s7: u64,
    pub s8: u64,
    pub s9: u64,
    pub s10: u64,
    pub s11: u64,
    pub t3: u64,
    pub t4: u64,
    pub t5: u64,
    pub t6: u64,
}

impl TrapFrame {
    /// A frame with every register zero.
    pub fn new() -> (r: Self)
        ensures
            r.kernel_satp == 0,
            r.kernel_sp == 0,
            r.kernel_trap == 0,
            r.epc == 0,
            r.kernel_hartid == 0,
            r.ra == 0,
            r.sp == 0,
            r.gp == 0,
            r.tp == 0,
            r.t0 == 0,
            r.t1 == 0,
            r.t2 == 0,
            r.s0 == 0,
            r.s1 == 0,
            r.a0 == 0,
            r.a1 == 0,
            r.a2 == 0,
            r.a3 == 0,
            r.a4 == 0,
            r.a5 == 0,
            r.a6 == 0,
            r.a7 == 0,
            r.s2 == 0,
            r.s3 == 0,
            r.s4 == 0,
            r.s5 == 0,
            r.s6 == 0,
            r.s7 == 0,
            r.s8 == 0,
            r.s9 == 0,
            r.s10 == 0,
            r.s11 == 0,
            r.t3 == 0,
            r.t4 == 0,
            r.t5 == 0,
            r.t6 == 0,
    {
        TrapFrame {
            kernel_satp: 0,
            kernel_sp: 0,
            kernel_trap: 0,
            epc: 0,
            kernel_hartid: 0,
            ra: 0,
            sp: 0,
            gp: 0,
            tp: 0,
            t0: 0,
            t1: 0,
            t2: 0,
            s0: 0,
            s1: 0,
            a0: 0,
            a1: 0,
            a2: 0,
            a3: 0,
            a4: 0,
            a5: 0,
            a6: 0,
            a7: 0,
            s2: 0,
            s3: 0,
            s4: 0,
            s5: 0,
            s6: 0,
            s7: 0,
            s8: 0,
            s9: 0,
            s10: 0,
            s11: 0,
            t3: 0,
            t4: 0,
            t5: 0,
            t6: 0,
        }
    }
}

} // verus!
