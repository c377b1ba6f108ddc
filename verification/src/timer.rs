//! Timers of sleeping tasks.

use vstd::prelude::*;
use crate::kernel::{Kernel, KernelView};

verus! {

/// The sleep of one task: when it ends, and whose it is.
#[derive(Clone, Copy, Debug)]
pub struct Timer {
    /// The time, in milliseconds, at which the sleep ends.
    pub expire_ms: usize,
    /// The sleeping task.
    pub tid: usize,
}

/// Index of the first timer that has expired at `now_ms`, or the length if none has.
pub open spec fn first_expired(timers: Seq<Timer>, now_ms: usize) -> int
    decreases timers.len(),
{
    if timers.len() == 0 {
        0
    } else if timers[0].expire_ms <= now_ms {
        0
    } else {
        1 + first_expired(timers.drop_first(), now_ms)
    }
}

/// `first_expired` is the least index of an expired timer.
pub proof fn lemma_first_expired(timers: Seq<Timer>, now_ms: usize)
    ensures
        0 <= first_expired(timers, now_ms) <= timers.len(),
        forall|j: int|
            0 <= j < first_expired(timers, now_ms) ==> (#[trigger] timers[j]).expire_ms > now_ms,
        first_expired(timers, now_ms) < timers.len() ==> timers[first_expired(
            timers,
            now_ms,
        )].expire_ms <= now_ms,
    decreases timers.len(),
{
    if timers.len() > 0 && timers[0].expire_ms > now_ms {
        let rest = timers.drop_first();
        lemma_first_expired(rest, now_ms);
        assert forall|j: int| 0 <= j < first_expired(timers, now_ms) implies (#[trigger] timers[j]).expire_ms
            > now_ms by {
            if j > 0 {
                assert(timers[j] == rest[j - 1]);
            }
        }
        assert(first_expired(timers, now_ms) < timers.len() ==> timers[first_expired(
            timers,
            now_ms,
        )] == rest[first_expired(rest, now_ms)]);
    }
}

/// A least index is the first expired one.
pub proof fn lemma_first_expired_is(timers: Seq<Timer>, now_ms: usize, i: int)
    requires
        0 <= i <= timers.len(),
        forall|j: int| 0 <= j < i ==> (#[trigger] timers[j]).expire_ms > now_ms,
        i < timers.len() ==> timers[i].expire_ms <= now_ms,
    ensures
        first_expired(timers, now_ms) == i,
{
    lemma_first_expired(timers, now_ms);
    let f = first_expired(timers, now_ms);
    if f < i {
        assert(timers[f].expire_ms > now_ms);
    } else if i < f {
        assert(timers[i].expire_ms > now_ms);
    }
}

impl KernelView {
    /// Every timer that has expired at `now_ms` is removed, the earliest set
    /// first, and its task becomes ready.
    pub open spec fn check_timer(self, now_ms: usize) -> KernelView
        decreases self.timers.len(),
    {
        let i = first_expired(self.timers, now_ms);
        if 0 <= i < self.timers.len() {
            self.wake_timer(i).check_timer(now_ms)
        } else {
            self
        }
    }
}

/// Wakes every task whose sleep has ended at the time `now_ms`, in the order
/// in which the sleeps were begun.
pub fn check_timer(kernel: &mut Kernel, now_ms: usize)
    requires
        old(kernel).wf(),
    ensures
        final(kernel).wf(),
        final(kernel)@ == old(kernel)@.check_timer(now_ms),
{
    let mut more: bool = true;
    while more
        invariant
            kernel.wf(),
            kernel@.check_timer(now_ms) == old(kernel)@.check_timer(now_ms),
            !more ==> kernel@.check_timer(now_ms) == kernel@,
        decreases kernel.timers.len(), if more { 1nat } else { 0nat },
    {
        let n: usize = kernel.timers.len();
        let mut i: usize = 0;
        while i < n && kernel.timers[i].expire_ms > now_ms
            invariant
                i <= n,
                n == kernel.timers.len(),
                forall|j: int| 0 <= j < i ==> (#[trigger] kernel@.timers[j]).expire_ms > now_ms,
            decreases n - i,
        {
            i = i + 1;
        }
        proof {
            lemma_first_expired_is(kernel@.timers, now_ms, i as int);
        }
        if i < n {
            kernel.wake_timer(i);
        } else {
            more = false;
        }
    }
}

} // verus!
