//! The saved execution state of a control flow.

use vstd::prelude::*;

verus! {

/// Registers that survive a switch: return address, stack pointer and the
/// callee-saved registers. The kernel only stores and hands back such a value.
#[derive(Clone, Copy, Debug, PartialEq, Eq)]
pub struct TaskContext {
    /// Address at which the flow resumes.
    pub ra: usize,
    /// Stack pointer of the flow.
    pub sp: usize,
    /// Callee-saved registers.
    pub s: [usize; 12],
}

impl TaskContext {
    /// A context with every register zero.
    pub fn zero_init() -> (cx: Self)
        ensures
            cx.ra == 0,
            cx.sp == 0,
            forall|i: int| 0 <= i < 12 ==> cx.s[i] == 0,
    {
        Self { ra: 0, sp: 0, s: [0; 12] }
    }

    /// A context that resumes at `ra` on the stack `sp` with cleared registers.
    pub fn goto(ra: usize, sp: usize) -> (cx: Self)
        ensures
            cx.ra == ra,
            cx.sp == sp,
            forall|i: int| 0 <= i < 12 ==> cx.s[i] == 0,
    {
        Self { ra, sp, s: [0; 12] }
    }
}

} // verus!
