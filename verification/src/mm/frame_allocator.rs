//! The allocator of physical frames.

use vstd::prelude::*;
use crate::config::PAGE_SIZE;

verus! {

/// Hands out the frames `current..end` one by one and takes freed frames back;
/// a freed frame is handed out again before a fresh one.
#[derive(Debug)]
pub struct FrameAllocator {
    /// The lowest frame that was never handed out.
    pub current: usize,
    /// One past the highest frame.
    pub end: usize,
    /// Frames that were handed out and given back, the next one to reuse last.
    pub recycled: Vec<usize>,
}

/// One past the highest frame number whose addresses fit in a machine word.
pub open spec fn frame_limit() -> int {
    (usize::MAX / PAGE_SIZE) as int + 1
}

/// The mathematical value of a frame allocator.
pub struct FrameAllocatorView {
    pub current: usize,
    pub end: usize,
    pub recycled: Seq<usize>,
}

impl FrameAllocatorView {
    /// Every recycled frame was handed out once, and none is recycled twice.
    pub open spec fn wf(self) -> bool {
        &&& self.current <= self.end
        &&& self.end <= frame_limit()
        &&& self.recycled.no_duplicates()
        &&& forall|i: int| 0 <= i < self.recycled.len() ==> #[trigger] self.recycled[i] < self.current
    }

    /// Number of frames that can still be handed out.
    pub open spec fn available(self) -> nat {
        (self.recycled.len() + (self.end - self.current)) as nat
    }

    /// The frame is neither handed out nor was it ever: it is free.
    pub open spec fn is_free(self, ppn: usize) -> bool {
        self.recycled.contains(ppn) || self.current <= ppn < self.end
    }

    /// The frame that the next allocation hands out.
    pub open spec fn next_frame(self) -> usize
        recommends
            self.available() > 0,
    {
        if self.recycled.len() > 0 {
            self.recycled.last()
        } else {
            self.current
        }
    }

    /// The allocator after one allocation.
    pub open spec fn after_alloc(self) -> FrameAllocatorView
        recommends
            self.available() > 0,
    {
        if self.recycled.len() > 0 {
            FrameAllocatorView { recycled: self.recycled.drop_last(), ..self }
        } else {
            FrameAllocatorView { current: (self.current + 1) as usize, ..self }
        }
    }

    /// The allocator after the frame `ppn` was given back.
    pub open spec fn after_dealloc(self, ppn: usize) -> FrameAllocatorView {
        FrameAllocatorView { recycled: self.recycled.push(ppn), ..self }
    }
}

impl View for FrameAllocator {
    type V = FrameAllocatorView;

    open spec fn view(&self) -> FrameAllocatorView {
        FrameAllocatorView { current: self.current, end: self.end, recycled: self.recycled@ }
    }
}

impl FrameAllocator {
    /// An allocator over the frames `start..end`.
    pub fn new(start: usize, end: usize) -> (fa: Self)
        requires
            start <= end <= frame_limit(),
        ensures
            fa@.wf(),
            fa@ == (FrameAllocatorView { current: start, end, recycled: Seq::empty() }),
    {
        Self { current: start, end, recycled: Vec::new() }
    }

    /// Whether at least `n` frames can still be handed out.
    pub fn has_available(&self, n: usize) -> (enough: bool)
        requires
            self@.wf(),
        ensures
            enough == (n <= self@.available()),
    {
        let fresh: usize = self.end - self.current;
        if n <= fresh {
            true
        } else {
            n - fresh <= self.recycled.len()
        }
    }

    /// Hands out a frame, a recycled one if there is any; `None` when none is left.
    pub fn frame_alloc(&mut self) -> (ppn: Option<usize>)
        requires
            old(self)@.wf(),
        ensures
            final(self)@.wf(),
            old(self)@.available() == 0 ==> ppn is None && final(self)@ == old(self)@,
            old(self)@.available() > 0 ==> ppn == Some(old(self)@.next_frame()) && final(self)@
                == old(self)@.after_alloc(),
            ppn matches Some(f) ==> old(self)@.is_free(f) && !final(self)@.is_free(f),
    {
        if self.recycled.len() > 0 {
            let ppn = self.recycled.pop();
            proof {
                let r = old(self)@.recycled;
                assert(self@.recycled =~= r.drop_last());
                assert(r.last() == r[r.len() - 1]);
                assert(r.contains(r.last()));
                if self@.recycled.contains(r.last()) {
                    let i = choose|i: int| 0 <= i < r.len() - 1 && r.drop_last()[i] == r.last();
                    assert(r[i] == r[r.len() - 1]);
                }
            }
            ppn
        } else if self.current == self.end {
            None
        } else {
            self.current = self.current + 1;
            proof {
                assert(!self@.recycled.contains((self.current - 1) as usize));
            }
            Some(self.current - 1)
        }
    }

    /// Takes back a frame that was handed out.
    pub fn frame_dealloc(&mut self, ppn: usize)
        requires
            old(self)@.wf(),
            ppn < old(self)@.current,
            !old(self)@.recycled.contains(ppn),
        ensures
            final(self)@.wf(),
            final(self)@ == old(self)@.after_dealloc(ppn),
    {
        self.recycled.push(ppn);
        proof {
            let r = old(self)@.recycled;
            assert forall|i: int, j: int|
                0 <= i < self@.recycled.len() && 0 <= j < self@.recycled.len() && i
                    != j implies self@.recycled[i] != self@.recycled[j] by {
                if i == r.len() {
                    assert(r[j] == self@.recycled[j]);
                    assert(r.contains(r[j]));
                } else if j == r.len() {
                    assert(r[i] == self@.recycled[i]);
                    assert(r.contains(r[i]));
                }
            }
        }
    }
}

} // verus!
