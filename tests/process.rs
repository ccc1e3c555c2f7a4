use kmem::proc::{ProcContext, ProcState};
use kmem::trapframe::TrapFrame;

#[test]
fn trap_frame_starts_zeroed() {
    let tf = TrapFrame::new();
    assert_eq!(tf.kernel_satp, 0);
    assert_eq!(tf.epc, 0);
    assert_eq!(tf.a0, 0);
    assert_eq!(tf.t6, 0);
}

#[test]
fn context_starts_zeroed() {
    let c = ProcContext::new();
    assert_eq!(c.ra, 0);
    assert_eq!(c.sp, 0);
    assert_eq!(c.s, [0u64; 12]);
    assert_ne!(ProcState::Unused, ProcState::Running);
}
