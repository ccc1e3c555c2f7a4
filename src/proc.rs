//! Process bookkeeping types shared with the scheduler.
use vstd::prelude::*;

verus! {

/// Life-cycle state of a process slot.
#[derive(Debug, PartialEq, Eq, Structural, Clone, Copy)]
pub enum ProcState {
    Unused,
    Used,
    Sleeping,
    Runnable,
    Running,
    Zombie,
}

/// Callee-saved registers kept across a context switch.
#[derive(Debug, PartialEq, Eq, Clone, Copy)]
pub struct ProcContext {
    pub ra: u64,
    pub sp: u64,
    pub s: [u64; 12],
}

impl ProcContext {
    /// A context with every register zero.
    pub fn new() -> (r: Self)
        ensures
            r.ra == 0,
            r.sp == 0,
            forall|i: int| 0 <= i < 12 ==> r.s@[i] == 0,
    {
        ProcContext { ra: 0, sp: 0, s: [0u64; 12] }
    }
}

} // verus!
