//! The address space: mapped regions, their frames, and the program break.

use vstd::prelude::*;
use crate::config::PAGE_SIZE;
use crate::mm::frame_allocator::{frame_limit, FrameAllocator, FrameAllocatorView};

verus! {

/// Number of virtual pages of an address space.
pub open spec fn page_count() -> int {
    (usize::MAX / PAGE_SIZE) as int + 1
}

/// The frame and the permission bits of one mapped page.
pub struct PageEntry {
    /// Number of the physical frame.
    pub ppn: usize,
    /// Permission bits: read (1), write (2), execute (4).
    pub perm: usize,
}

/// A region of consecutive virtual pages, each backed by a frame of its own.
#[derive(Debug)]
pub struct MapArea {
    /// The first virtual page of the region.
    pub start_vpn: usize,
    /// Permission bits of every page of the region.
    pub perm: usize,
    /// The frame of each page, in page order.
    pub frames: Vec<usize>,
}

impl MapArea {
    /// One past the last virtual page of the region.
    pub open spec fn end_vpn(&self) -> int {
        self.start_vpn + self.frames.len()
    }

    /// Whether the region holds the page `vpn`.
    pub open spec fn contains(&self, vpn: usize) -> bool {
        self.start_vpn <= vpn < self.end_vpn()
    }

    /// The entry of the page `vpn` of the region.
    pub open spec fn entry(&self, vpn: usize) -> PageEntry
        recommends
            self.contains(vpn),
    {
        PageEntry { ppn: self.frames[vpn - self.start_vpn], perm: self.perm }
    }
}

/// The address space of a process.
#[derive(Debug)]
pub struct MemorySet {
    /// The mapped regions, in the order in which they were made.
    pub areas: Vec<MapArea>,
    /// The frames of this address space.
    pub frame_allocator: FrameAllocator,
    /// The lowest address of the heap.
    pub heap_bottom: usize,
    /// The program break: one past the highest address of the heap.
    pub program_brk: usize,
    /// The token that names this address space.
    pub token: usize,
}

/// The mathematical value of an address space: its page table.
pub struct MemorySetView {
    /// The entry of every mapped page, by page number.
    pub pages: Map<usize, PageEntry>,
    /// The frame allocator.
    pub frames: FrameAllocatorView,
    pub heap_bottom: usize,
    pub program_brk: usize,
    /// The token that names the address space.
    pub token: usize,
}

impl MemorySetView {
    /// The address space without pages, with the frames `frame_start..frame_end`
    /// and an empty heap at `heap_bottom`.
    pub open spec fn empty(
        token: usize,
        frame_start: usize,
        frame_end: usize,
        heap_bottom: usize,
    ) -> MemorySetView {
        MemorySetView {
            pages: Map::empty(),
            frames: FrameAllocatorView {
                current: frame_start,
                end: frame_end,
                recycled: Seq::empty(),
            },
            heap_bottom,
            program_brk: heap_bottom,
            token,
        }
    }

    /// Every mapped page has a frame of its own that the allocator has handed out.
    pub open spec fn wf(self) -> bool {
        &&& self.frames.wf()
        &&& self.heap_bottom <= self.program_brk
        &&& self.heap_bottom % PAGE_SIZE == 0
        &&& forall|vpn: usize| #[trigger]
            self.pages.dom().contains(vpn) ==> {
                &&& vpn < page_count()
                &&& self.pages[vpn].ppn < self.frames.current
                &&& !self.frames.recycled.contains(self.pages[vpn].ppn)
            }
        &&& forall|v1: usize, v2: usize|
            #![trigger self.pages[v1], self.pages[v2]]
            self.pages.dom().contains(v1) && self.pages.dom().contains(v2) && v1 != v2
                ==> self.pages[v1].ppn != self.pages[v2].ppn
    }

    /// Whether the page `vpn` is mapped.
    pub open spec fn mapped(self, vpn: usize) -> bool {
        self.pages.dom().contains(vpn)
    }

    /// The physical address of the virtual address `va`, if its page is mapped.
    pub open spec fn translate(self, va: usize) -> Option<usize> {
        let vpn = (va / PAGE_SIZE) as usize;
        if self.pages.dom().contains(vpn) {
            Some((self.pages[vpn].ppn * PAGE_SIZE + va % PAGE_SIZE) as usize)
        } else {
            None
        }
    }
}

impl MemorySet {
    /// Whether some region holds the page `vpn`.
    pub open spec fn covering(&self, vpn: usize) -> bool {
        exists|i: int| 0 <= i < self.areas.len() && (#[trigger] self.areas[i]).contains(vpn)
    }

    /// Index of a region that holds the page `vpn`.
    pub open spec fn area_of(&self, vpn: usize) -> int {
        choose|i: int| 0 <= i < self.areas.len() && (#[trigger] self.areas[i]).contains(vpn)
    }

    /// The regions are non-empty, lie within the address space and do not
    /// overlap, and the page table that they describe is well formed.
    pub open spec fn wf(&self) -> bool {
        &&& forall|i: int|
            0 <= i < self.areas.len() ==> (#[trigger] self.areas[i]).frames.len() > 0
                && self.areas[i].end_vpn() <= page_count()
        &&& forall|i: int, j: int|
            #![trigger self.areas[i], self.areas[j]]
            0 <= i < self.areas.len() && 0 <= j < self.areas.len() && i != j
                ==> self.areas[i].end_vpn() <= self.areas[j].start_vpn || self.areas[j].end_vpn()
                <= self.areas[i].start_vpn
        &&& self@.wf()
    }
}

impl View for MemorySet {
    type V = MemorySetView;

    open spec fn view(&self) -> MemorySetView {
        MemorySetView {
            pages: Map::new(
                |vpn: usize| self.covering(vpn),
                |vpn: usize| self.areas[self.area_of(vpn)].entry(vpn),
            ),
            frames: self.frame_allocator@,
            heap_bottom: self.heap_bottom,
            program_brk: self.program_brk,
            token: self.token,
        }
    }
}

impl MemorySet {
    /// An address space named `token` without regions, with the frames
    /// `frame_start..frame_end` and an empty heap at the page-aligned address
    /// `heap_bottom`.
    pub fn new(token: usize, frame_start: usize, frame_end: usize, heap_bottom: usize) -> (ms: Self)
        requires
            frame_start <= frame_end <= frame_limit(),
            heap_bottom % PAGE_SIZE == 0,
        ensures
            ms.wf(),
            ms@ == MemorySetView::empty(token, frame_start, frame_end, heap_bottom),
    {
        let ms = Self {
            areas: Vec::new(),
            frame_allocator: FrameAllocator::new(frame_start, frame_end),
            heap_bottom,
            program_brk: heap_bottom,
            token,
        };
        proof {
            assert(ms@.pages =~= Map::<usize, PageEntry>::empty());
        }
        ms
    }
}

impl MemorySetView {
    /// The page `vpn` is mapped to the next frame of the allocator.
    pub open spec fn map_page(self, vpn: usize, perm: usize) -> MemorySetView {
        MemorySetView {
            pages: self.pages.insert(vpn, PageEntry { ppn: self.frames.next_frame(), perm }),
            frames: self.frames.after_alloc(),
            ..self
        }
    }

    /// The `n` pages from `start_vpn` on are mapped, in ascending order.
    pub open spec fn map_pages(self, start_vpn: usize, n: nat, perm: usize) -> MemorySetView
        decreases n,
    {
        if n == 0 {
            self
        } else {
            self.map_pages(start_vpn, (n - 1) as nat, perm).map_page(
                (start_vpn + n - 1) as usize,
                perm,
            )
        }
    }

    /// The page `vpn` is unmapped and its frame given back.
    pub open spec fn unmap_page(self, vpn: usize) -> MemorySetView {
        MemorySetView {
            pages: self.pages.remove(vpn),
            frames: self.frames.after_dealloc(self.pages[vpn].ppn),
            ..self
        }
    }

    /// The `n` pages from `start_vpn` on are unmapped, in ascending order.
    pub open spec fn unmap_pages(self, start_vpn: usize, n: nat) -> MemorySetView
        decreases n,
    {
        if n == 0 {
            self
        } else {
            self.unmap_pages(start_vpn, (n - 1) as nat).unmap_page((start_vpn + n - 1) as usize)
        }
    }

    /// None of the `n` pages from `start_vpn` on is mapped.
    pub open spec fn range_unmapped(self, start_vpn: usize, n: nat) -> bool {
        forall|v: usize| start_vpn <= v < start_vpn + n ==> !#[trigger] self.mapped(v)
    }

    /// Each of the `n` pages from `start_vpn` on is mapped.
    pub open spec fn range_mapped(self, start_vpn: usize, n: nat) -> bool {
        forall|v: usize| start_vpn <= v < start_vpn + n ==> #[trigger] self.mapped(v)
    }

    /// Mapping a free page within the address space, while a frame is left,
    /// keeps the page table well formed.
    pub proof fn lemma_map_page(self, vpn: usize, perm: usize)
        requires
            self.wf(),
            !self.mapped(vpn),
            vpn < page_count(),
            self.frames.available() > 0,
        ensures
            self.map_page(vpn, perm).wf(),
            self.map_page(vpn, perm).frames.available() == self.frames.available() - 1,
    {
        let v2 = self.map_page(vpn, perm);
        let f = self.frames.next_frame();
        let r = self.frames.recycled;
        if r.len() > 0 {
            assert(r.contains(r.last())) by {
                assert(r[r.len() - 1] == r.last());
            }
            assert(v2.frames.recycled =~= r.drop_last());
            assert forall|i: int| 0 <= i < r.drop_last().len() implies r.drop_last()[i]
                != r.last() by {
                assert(r[i] != r[r.len() - 1]);
            }
        }
        assert(!v2.frames.recycled.contains(f));
        assert forall|x: usize| #[trigger] v2.pages.dom().contains(x) implies {
            &&& x < page_count()
            &&& v2.pages[x].ppn < v2.frames.current
            &&& !v2.frames.recycled.contains(v2.pages[x].ppn)
        } by {
            if x != vpn {
                assert(self.pages.dom().contains(x));
                if v2.frames.recycled.contains(self.pages[x].ppn) {
                    let i = choose|i: int|
                        0 <= i < v2.frames.recycled.len() && v2.frames.recycled[i]
                            == self.pages[x].ppn;
                    assert(r[i] == self.pages[x].ppn);
                    assert(r.contains(self.pages[x].ppn));
                }
            }
        }
        assert forall|x: usize, y: usize|
            #![trigger v2.pages[x], v2.pages[y]]
            v2.pages.dom().contains(x) && v2.pages.dom().contains(y) && x != y implies v2.pages[x].ppn
            != v2.pages[y].ppn by {
            if x != vpn && y != vpn {
                assert(self.pages.dom().contains(x) && self.pages.dom().contains(y));
                assert(self.pages[x].ppn != self.pages[y].ppn);
            } else if x == vpn {
                assert(self.pages.dom().contains(y));
            } else {
                assert(self.pages.dom().contains(x));
            }
        }
        assert(v2.frames.wf()) by {
            if r.len() > 0 {
                assert forall|i: int, j: int|
                    0 <= i < r.drop_last().len() && 0 <= j < r.drop_last().len() && i
                        != j implies r.drop_last()[i] != r.drop_last()[j] by {
                    assert(r[i] != r[j]);
                }
            }
        }
    }

    /// Unmapping a mapped page keeps the page table well formed.
    pub proof fn lemma_unmap_page(self, vpn: usize)
        requires
            self.wf(),
            self.mapped(vpn),
        ensures
            self.unmap_page(vpn).wf(),
    {
        let v2 = self.unmap_page(vpn);
        let f = self.pages[vpn].ppn;
        let r = self.frames.recycled;
        crate::steps::lemma_push_no_duplicates(r, f);
        assert forall|x: usize| #[trigger] v2.pages.dom().contains(x) implies {
            &&& x < page_count()
            &&& v2.pages[x].ppn < v2.frames.current
            &&& !v2.frames.recycled.contains(v2.pages[x].ppn)
        } by {
            assert(self.pages.dom().contains(x));
            assert(self.pages[x].ppn != self.pages[vpn].ppn);
            if v2.frames.recycled.contains(self.pages[x].ppn) {
                let i = choose|i: int|
                    0 <= i < v2.frames.recycled.len() && v2.frames.recycled[i]
                        == self.pages[x].ppn;
                if i < r.len() {
                    assert(r[i] == self.pages[x].ppn);
                    assert(r.contains(self.pages[x].ppn));
                }
            }
        }
        assert forall|x: usize, y: usize|
            #![trigger v2.pages[x], v2.pages[y]]
            v2.pages.dom().contains(x) && v2.pages.dom().contains(y) && x != y implies v2.pages[x].ppn
            != v2.pages[y].ppn by {
            assert(self.pages.dom().contains(x) && self.pages.dom().contains(y));
            assert(self.pages[x].ppn != self.pages[y].ppn);
        }
    }

    /// What mapping `n` free pages does: the pages of the range are mapped,
    /// the others are as before, and `n` frames fewer are left.
    pub proof fn lemma_map_pages(self, start_vpn: usize, n: nat, perm: usize)
        requires
            self.wf(),
            self.range_unmapped(start_vpn, n),
            start_vpn + n <= page_count(),
            n <= self.frames.available(),
        ensures
            self.map_pages(start_vpn, n, perm).wf(),
            self.map_pages(start_vpn, n, perm).frames.available() == self.frames.available() - n,
            self.map_pages(start_vpn, n, perm).heap_bottom == self.heap_bottom,
            self.map_pages(start_vpn, n, perm).program_brk == self.program_brk,
            self.map_pages(start_vpn, n, perm).token == self.token,
            forall|v: usize|
                #![trigger self.map_pages(start_vpn, n, perm).pages.dom().contains(v)]
                self.map_pages(start_vpn, n, perm).pages.dom().contains(v) <==> (self.mapped(v)
                    || start_vpn <= v < start_vpn + n),
            forall|v: usize|
                self.mapped(v) ==> #[trigger] self.map_pages(start_vpn, n, perm).pages[v]
                    == self.pages[v],
            forall|v: usize|
                start_vpn <= v < start_vpn + n ==> (#[trigger] self.map_pages(
                    start_vpn,
                    n,
                    perm,
                ).pages[v]).perm == perm,
        decreases n,
    {
        if n > 0 {
            let prev = self.map_pages(start_vpn, (n - 1) as nat, perm);
            assert(self.range_unmapped(start_vpn, (n - 1) as nat)) by {
                assert forall|v: usize| start_vpn <= v < start_vpn + n - 1 implies !#[trigger] self.mapped(
                    v,
                ) by {}
            }
            self.lemma_map_pages(start_vpn, (n - 1) as nat, perm);
            let last = (start_vpn + n - 1) as usize;
            assert(!self.mapped(last));
            assert(!prev.mapped(last));
            prev.lemma_map_page(last, perm);
        }
    }

    /// What unmapping `n` mapped pages does: the pages of the range are
    /// unmapped and the others are as before.
    pub proof fn lemma_unmap_pages(self, start_vpn: usize, n: nat)
        requires
            self.wf(),
            self.range_mapped(start_vpn, n),
            start_vpn + n <= page_count(),
        ensures
            self.unmap_pages(start_vpn, n).wf(),
            self.unmap_pages(start_vpn, n).frames.available() == self.frames.available() + n,
            self.unmap_pages(start_vpn, n).heap_bottom == self.heap_bottom,
            self.unmap_pages(start_vpn, n).program_brk == self.program_brk,
            self.unmap_pages(start_vpn, n).token == self.token,
            forall|v: usize|
                #![trigger self.unmap_pages(start_vpn, n).pages.dom().contains(v)]
                self.unmap_pages(start_vpn, n).pages.dom().contains(v) <==> (self.mapped(v) && !(
                start_vpn <= v < start_vpn + n)),
            forall|v: usize|
                self.mapped(v) && !(start_vpn <= v < start_vpn + n) ==> #[trigger] self.unmap_pages(
                    start_vpn,
                    n,
                ).pages[v] == self.pages[v],
        decreases n,
    {
        if n > 0 {
            let prev = self.unmap_pages(start_vpn, (n - 1) as nat);
            assert(self.range_mapped(start_vpn, (n - 1) as nat)) by {
                assert forall|v: usize| start_vpn <= v < start_vpn + n - 1 implies #[trigger] self.mapped(
                    v,
                ) by {}
            }
            self.lemma_unmap_pages(start_vpn, (n - 1) as nat);
            let last = (start_vpn + n - 1) as usize;
            assert(self.mapped(last));
            assert(prev.pages.dom().contains(last));
            prev.lemma_unmap_page(last);
        }
    }
}

impl MemorySet {
    /// In a well-formed address space a page lies in at most one region.
    pub proof fn lemma_area_unique(&self, vpn: usize, j: int)
        requires
            self.wf(),
            0 <= j < self.areas.len(),
            self.areas[j].contains(vpn),
        ensures
            self.covering(vpn),
            self.area_of(vpn) == j,
            self@.mapped(vpn),
            self@.pages[vpn] == self.areas[j].entry(vpn),
    {
        let i = self.area_of(vpn);
        if i != j {
            assert(self.areas[i].end_vpn() <= self.areas[j].start_vpn || self.areas[j].end_vpn()
                <= self.areas[i].start_vpn);
        }
    }

    /// The regions of `new` are pieces of the regions of `self` that together
    /// hold every page but `vpn`, with the same frames.
    pub open spec fn pieces_without(
        &self,
        new: &MemorySet,
        vpn: usize,
        origin: spec_fn(int) -> int,
        dest: spec_fn(int, usize) -> int,
    ) -> bool {
        &&& forall|p: int|
            0 <= p < new.areas.len() ==> {
                let j = origin(p);
                &&& 0 <= j < self.areas.len()
                &&& (#[trigger] new.areas[p]).frames.len() > 0
                &&& self.areas[j].start_vpn <= new.areas[p].start_vpn
                &&& new.areas[p].end_vpn() <= self.areas[j].end_vpn()
                &&& new.areas[p].perm == self.areas[j].perm
                &&& !new.areas[p].contains(vpn)
                &&& forall|x: int|
                    0 <= x < new.areas[p].frames.len() ==> #[trigger] new.areas[p].frames[x]
                        == self.areas[j].frames[x + new.areas[p].start_vpn
                        - self.areas[j].start_vpn]
            }
        &&& forall|j: int, v: usize|
            0 <= j < self.areas.len() && (#[trigger] self.areas[j]).contains(v) && v != vpn ==> 0
                <= #[trigger] dest(j, v) < new.areas.len() && new.areas[dest(j, v)].contains(v)
        &&& forall|p: int, q: int|
            #![trigger new.areas[p], new.areas[q]]
            0 <= p < new.areas.len() && 0 <= q < new.areas.len() && p != q
                ==> new.areas[p].end_vpn() <= new.areas[q].start_vpn || new.areas[q].end_vpn()
                <= new.areas[p].start_vpn
    }

    /// An address space rebuilt from such pieces, with the frame of `vpn`
    /// given back, is the old one with `vpn` unmapped.
    pub proof fn lemma_pieces_without(
        &self,
        new: &MemorySet,
        vpn: usize,
        origin: spec_fn(int) -> int,
        dest: spec_fn(int, usize) -> int,
    )
        requires
            self.wf(),
            self@.mapped(vpn),
            self.pieces_without(new, vpn, origin, dest),
            new.frame_allocator@ == self.frame_allocator@.after_dealloc(self@.pages[vpn].ppn),
            new.frame_allocator@.wf(),
            new.heap_bottom == self.heap_bottom,
            new.program_brk == self.program_brk,
            new.token == self.token,
        ensures
            new.wf(),
            new@ == self@.unmap_page(vpn),
    {
        let target = self@.unmap_page(vpn);
        assert forall|v: usize| new@.pages.dom().contains(v) <==> target.pages.dom().contains(
            v,
        ) by {
            if new.covering(v) {
                let p = new.area_of(v);
                let j = origin(p);
                assert(new.areas[p].contains(v));
                assert(self.areas[j].contains(v));
                self.lemma_area_unique(v, j);
            }
            if self.covering(v) && v != vpn {
                let j = self.area_of(v);
                assert(self.areas[j].contains(v));
                assert(new.areas[dest(j, v)].contains(v));
            }
        }
        assert forall|v: usize| new@.pages.dom().contains(v) implies #[trigger] new@.pages[v]
            == target.pages[v] by {
            let p = new.area_of(v);
            let j = origin(p);
            assert(new.areas[p].contains(v));
            assert(self.areas[j].contains(v));
            self.lemma_area_unique(v, j);
            let x = v - new.areas[p].start_vpn;
            assert(new.areas[p].frames[x] == self.areas[j].frames[x + new.areas[p].start_vpn
                - self.areas[j].start_vpn]);
        }
        assert(new@.pages =~= target.pages);
        self@.lemma_unmap_page(vpn);
        assert forall|p: int| 0 <= p < new.areas.len() implies (#[trigger] new.areas[p]).frames.len()
            > 0 && new.areas[p].end_vpn() <= page_count() by {
            let j = origin(p);
            assert(!new.areas[p].contains(vpn));
            assert(0 <= j < self.areas.len());
            assert(self.areas[j].end_vpn() <= page_count());
        }
    }

    /// Index of the region that holds the page `vpn`, if the page is mapped.
    pub fn find_area(&self, vpn: usize) -> (idx: Option<usize>)
        requires
            self.wf(),
        ensures
            idx matches Some(i) ==> i < self.areas.len() && self.areas[i as int].contains(vpn)
                && self@.mapped(vpn),
            idx is None ==> !self@.mapped(vpn),
    {
        let mut i: usize = 0;
        while i < self.areas.len()
            invariant
                i <= self.areas.len(),
                self.wf(),
                forall|j: int| 0 <= j < i ==> !(#[trigger] self.areas[j]).contains(vpn),
            decreases self.areas.len() - i,
        {
            let start: usize = self.areas[i].start_vpn;
            if start <= vpn && vpn - start < self.areas[i].frames.len() {
                proof {
                    self.lemma_area_unique(vpn, i as int);
                }
                return Some(i);
            }
            i = i + 1;
        }
        None
    }

    /// Whether none of the `n` pages from `start_vpn` on is mapped.
    pub fn range_is_unmapped(&self, start_vpn: usize, n: usize) -> (free: bool)
        requires
            self.wf(),
            start_vpn + n <= usize::MAX,
        ensures
            free == self@.range_unmapped(start_vpn, n as nat),
    {
        let mut i: usize = 0;
        while i < n
            invariant
                i <= n,
                self.wf(),
                start_vpn + n <= usize::MAX,
                forall|v: usize| start_vpn <= v < start_vpn + i ==> !#[trigger] self@.mapped(v),
            decreases n - i,
        {
            if self.find_area(start_vpn + i).is_some() {
                assert(self@.mapped((start_vpn + i) as usize));
                return false;
            }
            i = i + 1;
        }
        true
    }

    /// Whether each of the `n` pages from `start_vpn` on is mapped.
    pub fn range_is_mapped(&self, start_vpn: usize, n: usize) -> (full: bool)
        requires
            self.wf(),
            start_vpn + n <= usize::MAX,
        ensures
            full == self@.range_mapped(start_vpn, n as nat),
    {
        let mut i: usize = 0;
        while i < n
            invariant
                i <= n,
                self.wf(),
                start_vpn + n <= usize::MAX,
                forall|v: usize| start_vpn <= v < start_vpn + i ==> #[trigger] self@.mapped(v),
            decreases n - i,
        {
            if self.find_area(start_vpn + i).is_none() {
                assert(!self@.mapped((start_vpn + i) as usize));
                return false;
            }
            i = i + 1;
        }
        true
    }

    /// Pieces of two different regions of `self` do not overlap.
    proof fn lemma_pieces_apart(
        &self,
        new: &MemorySet,
        origin: spec_fn(int) -> int,
        p: int,
        q: int,
    )
        requires
            self.wf(),
            0 <= p < new.areas.len(),
            0 <= q < new.areas.len(),
            0 <= origin(p) < self.areas.len(),
            0 <= origin(q) < self.areas.len(),
            origin(p) != origin(q),
            self.areas[origin(p)].start_vpn <= new.areas[p].start_vpn,
            new.areas[p].end_vpn() <= self.areas[origin(p)].end_vpn(),
            self.areas[origin(q)].start_vpn <= new.areas[q].start_vpn,
            new.areas[q].end_vpn() <= self.areas[origin(q)].end_vpn(),
        ensures
            new.areas[p].end_vpn() <= new.areas[q].start_vpn || new.areas[q].end_vpn()
                <= new.areas[p].start_vpn,
    {
        let a = origin(p);
        let b = origin(q);
        assert(self.areas[a].end_vpn() <= self.areas[b].start_vpn || self.areas[b].end_vpn()
            <= self.areas[a].start_vpn);
    }

    /// Unmaps the only page `vpn` of region `i`: the region goes.
    fn unmap_whole(&mut self, i: usize, vpn: usize)
        requires
            old(self).wf(),
            i < old(self).areas.len(),
            old(self).areas[i as int].contains(vpn),
            old(self).areas[i as int].frames.len() == 1,
        ensures
            final(self).wf(),
            final(self)@ == old(self)@.unmap_page(vpn),
    {
        proof {
            old(self).lemma_area_unique(vpn, i as int);
            old(self)@.lemma_unmap_page(vpn);
        }
        let area = self.areas.remove(i);
        self.frame_allocator.frame_dealloc(area.frames[0]);
        proof {
            let origin = |p: int| if p < i { p } else { p + 1 };
            let dest = |j: int, v: usize| if j < i { j } else { j - 1 };
            assert forall|p: int, q: int|
                #![trigger self.areas[p], self.areas[q]]
                0 <= p < self.areas.len() && 0 <= q < self.areas.len() && p
                    != q implies self.areas[p].end_vpn() <= self.areas[q].start_vpn
                || self.areas[q].end_vpn() <= self.areas[p].start_vpn by {
                old(self).lemma_pieces_apart(self, origin, p, q);
            }
            assert(old(self).pieces_without(self, vpn, origin, dest));
            old(self).lemma_pieces_without(self, vpn, origin, dest);
        }
    }

    /// Unmaps the first page `vpn` of region `i`, which has more pages.
    fn unmap_front(&mut self, i: usize, vpn: usize)
        requires
            old(self).wf(),
            i < old(self).areas.len(),
            old(self).areas[i as int].start_vpn == vpn,
            old(self).areas[i as int].frames.len() > 1,
        ensures
            final(self).wf(),
            final(self)@ == old(self)@.unmap_page(vpn),
    {
        proof {
            old(self).lemma_area_unique(vpn, i as int);
            old(self)@.lemma_unmap_page(vpn);
        }
        let ppn: usize = self.areas[i].frames.remove(0);
        self.areas[i].start_vpn = vpn + 1;
        self.frame_allocator.frame_dealloc(ppn);
        proof {
            let origin = |p: int| p;
            let dest = |j: int, v: usize| j;
            assert forall|p: int, q: int|
                #![trigger self.areas[p], self.areas[q]]
                0 <= p < self.areas.len() && 0 <= q < self.areas.len() && p
                    != q implies self.areas[p].end_vpn() <= self.areas[q].start_vpn
                || self.areas[q].end_vpn() <= self.areas[p].start_vpn by {
                old(self).lemma_pieces_apart(self, origin, p, q);
            }
            assert(old(self).pieces_without(self, vpn, origin, dest));
            old(self).lemma_pieces_without(self, vpn, origin, dest);
        }
    }

    /// Unmaps the last page `vpn` of region `i`, which has more pages.
    fn unmap_back(&mut self, i: usize, vpn: usize)
        requires
            old(self).wf(),
            i < old(self).areas.len(),
            old(self).areas[i as int].end_vpn() == vpn + 1,
            old(self).areas[i as int].frames.len() > 1,
        ensures
            final(self).wf(),
            final(self)@ == old(self)@.unmap_page(vpn),
    {
        proof {
            old(self).lemma_area_unique(vpn, i as int);
            old(self)@.lemma_unmap_page(vpn);
        }
        let ppn: usize = self.areas[i].frames.pop().unwrap();
        self.frame_allocator.frame_dealloc(ppn);
        proof {
            let origin = |p: int| p;
            let dest = |j: int, v: usize| j;
            assert forall|p: int, q: int|
                #![trigger self.areas[p], self.areas[q]]
                0 <= p < self.areas.len() && 0 <= q < self.areas.len() && p
                    != q implies self.areas[p].end_vpn() <= self.areas[q].start_vpn
                || self.areas[q].end_vpn() <= self.areas[p].start_vpn by {
                old(self).lemma_pieces_apart(self, origin, p, q);
            }
            assert(old(self).pieces_without(self, vpn, origin, dest));
            old(self).lemma_pieces_without(self, vpn, origin, dest);
        }
    }

    /// Unmaps the page `vpn` in the middle of region `i`: the region splits in two.
    fn unmap_middle(&mut self, i: usize, vpn: usize)
        requires
            old(self).wf(),
            i < old(self).areas.len(),
            old(self).areas[i as int].start_vpn < vpn,
            vpn + 1 < old(self).areas[i as int].end_vpn(),
        ensures
            final(self).wf(),
            final(self)@ == old(self)@.unmap_page(vpn),
    {
        proof {
            old(self).lemma_area_unique(vpn, i as int);
            old(self)@.lemma_unmap_page(vpn);
        }
        let k: usize = vpn - self.areas[i].start_vpn;
        let tail = self.areas[i].frames.split_off(k + 1);
        let ppn: usize = self.areas[i].frames.pop().unwrap();
        let perm: usize = self.areas[i].perm;
        self.areas.push(MapArea { start_vpn: vpn + 1, perm, frames: tail });
        self.frame_allocator.frame_dealloc(ppn);
        proof {
            let n0 = old(self).areas.len() as int;
            let origin = |p: int| if p == n0 { i as int } else { p };
            let dest = |j: int, v: usize| if j == i && v > vpn { n0 } else { j };
            assert forall|p: int, q: int|
                #![trigger self.areas[p], self.areas[q]]
                0 <= p < self.areas.len() && 0 <= q < self.areas.len() && p
                    != q implies self.areas[p].end_vpn() <= self.areas[q].start_vpn
                || self.areas[q].end_vpn() <= self.areas[p].start_vpn by {
                if origin(p) != origin(q) {
                    old(self).lemma_pieces_apart(self, origin, p, q);
                }
            }
            assert(old(self).pieces_without(self, vpn, origin, dest));
            old(self).lemma_pieces_without(self, vpn, origin, dest);
        }
    }

    /// Unmaps the mapped page `vpn` and gives its frame back. The region that
    /// held the page shrinks, splits in two, or goes.
    pub fn unmap_page(&mut self, vpn: usize)
        requires
            old(self).wf(),
            old(self)@.mapped(vpn),
        ensures
            final(self).wf(),
            final(self)@ == old(self)@.unmap_page(vpn),
    {
        let i: usize = self.find_area(vpn).unwrap();
        let k: usize = vpn - self.areas[i].start_vpn;
        let len: usize = self.areas[i].frames.len();
        if len == 1 {
            self.unmap_whole(i, vpn);
        } else if k == 0 {
            self.unmap_front(i, vpn);
        } else if k == len - 1 {
            self.unmap_back(i, vpn);
        } else {
            self.unmap_middle(i, vpn);
        }
    }
}

/// Number of the page that holds the address `va`.
pub open spec fn page_of(va: int) -> int {
    va / PAGE_SIZE as int
}

/// Number of the first page at or after the address `va`.
pub open spec fn page_after(va: int) -> int {
    (va + PAGE_SIZE - 1) / PAGE_SIZE as int
}

/// Number of the first page at or after the address `va`.
pub fn page_ceil(va: usize) -> (vpn: usize)
    ensures
        vpn == page_after(va as int),
        vpn <= page_count(),
{
    if va % PAGE_SIZE == 0 {
        va / PAGE_SIZE
    } else {
        va / PAGE_SIZE + 1
    }
}

/// Number of pages that the `len` bytes at `start` touch.
pub open spec fn span(start: usize, len: usize) -> nat {
    if len == 0 {
        0
    } else {
        (page_after(start + len) - page_of(start as int)) as nat
    }
}

/// A range of physical memory.
#[derive(Clone, Copy, Debug, PartialEq, Eq)]
pub struct Segment {
    /// The physical address of the first byte.
    pub pa: usize,
    /// The number of bytes.
    pub len: usize,
}

impl MemorySetView {
    /// Whether `len` bytes at `start` can be mapped: the range ends within the
    /// address space, none of its pages is mapped, and a frame is left for each.
    pub open spec fn can_mmap(self, start: usize, len: usize) -> bool {
        &&& start + len <= usize::MAX
        &&& self.range_unmapped(page_of(start as int) as usize, span(start, len))
        &&& span(start, len) <= self.frames.available()
    }

    /// The address space after `len` bytes at `start` were mapped with `perm`.
    pub open spec fn mmap(self, start: usize, len: usize, perm: usize) -> MemorySetView {
        if self.can_mmap(start, len) {
            self.map_pages(page_of(start as int) as usize, span(start, len), perm)
        } else {
            self
        }
    }

    /// Whether `len` bytes at `start` can be unmapped: the range ends within
    /// the address space and each of its pages is mapped.
    pub open spec fn can_munmap(self, start: usize, len: usize) -> bool {
        &&& start + len <= usize::MAX
        &&& self.range_mapped(page_of(start as int) as usize, span(start, len))
    }

    /// The address space after `len` bytes at `start` were unmapped.
    pub open spec fn munmap(self, start: usize, len: usize) -> MemorySetView {
        if self.can_munmap(start, len) {
            self.unmap_pages(page_of(start as int) as usize, span(start, len))
        } else {
            self
        }
    }

    /// Whether the program break can move by `delta` bytes: it stays at or
    /// above the bottom of the heap and within the address space; the pages
    /// that the heap gains are free and a frame is left for each; the pages
    /// that it loses are mapped.
    pub open spec fn can_sbrk(self, delta: int) -> bool {
        let new_brk = self.program_brk + delta;
        &&& self.heap_bottom <= new_brk <= usize::MAX
        &&& delta >= 0 ==> {
            &&& self.range_unmapped(
                page_after(self.program_brk as int) as usize,
                (page_after(new_brk) - page_after(self.program_brk as int)) as nat,
            )
            &&& page_after(new_brk) - page_after(self.program_brk as int)
                <= self.frames.available()
        }
        &&& delta < 0 ==> self.range_mapped(
            page_after(new_brk) as usize,
            (page_after(self.program_brk as int) - page_after(new_brk)) as nat,
        )
    }

    /// The address space after the program break moved by `delta` bytes. The
    /// pages that the heap gains are readable and writable.
    pub open spec fn sbrk(self, delta: int) -> MemorySetView {
        let new_brk = self.program_brk + delta;
        if !self.can_sbrk(delta) {
            self
        } else if delta >= 0 {
            MemorySetView {
                program_brk: new_brk as usize,
                ..self.map_pages(
                    page_after(self.program_brk as int) as usize,
                    (page_after(new_brk) - page_after(self.program_brk as int)) as nat,
                    3,
                )
            }
        } else {
            MemorySetView {
                program_brk: new_brk as usize,
                ..self.unmap_pages(
                    page_after(new_brk) as usize,
                    (page_after(self.program_brk as int) - page_after(new_brk)) as nat,
                )
            }
        }
    }
}

impl MemorySet {
    /// Maps the `n` free pages from `start_vpn` on as one new region, each to
    /// a frame of its own.
    pub fn map_range(&mut self, start_vpn: usize, n: usize, perm: usize)
        requires
            old(self).wf(),
            old(self)@.range_unmapped(start_vpn, n as nat),
            start_vpn + n <= page_count(),
            n <= old(self)@.frames.available(),
        ensures
            final(self).wf(),
            final(self)@ == old(self)@.map_pages(start_vpn, n as nat, perm),
    {
        if n == 0 {
            return ;
        }
        let mut frames: Vec<usize> = Vec::new();
        let mut i: usize = 0;
        let ghost base = old(self)@;
        while i < n
            invariant
                i <= n,
                start_vpn + n <= page_count(),
                base == old(self)@,
                base.wf(),
                base.range_unmapped(start_vpn, n as nat),
                n <= base.frames.available(),
                self.areas == old(self).areas,
                self.heap_bottom == old(self).heap_bottom,
                self.program_brk == old(self).program_brk,
                self.token == old(self).token,
                self.frame_allocator@ == base.map_pages(start_vpn, i as nat, perm).frames,
                self.frame_allocator@.wf(),
                frames@.len() == i,
                forall|j: int|
                    0 <= j < i ==> (#[trigger] base.map_pages(
                        start_vpn,
                        i as nat,
                        perm,
                    ).pages[(start_vpn + j) as usize]).ppn == frames@[j],
            decreases n - i,
        {
            proof {
                assert(base.range_unmapped(start_vpn, i as nat)) by {
                    assert forall|v: usize| start_vpn <= v < start_vpn + i implies !#[trigger] base.mapped(
                        v,
                    ) by {}
                }
                base.lemma_map_pages(start_vpn, i as nat, perm);
                assert(base.range_unmapped(start_vpn, (i + 1) as nat)) by {
                    assert forall|v: usize|
                        start_vpn <= v < start_vpn + i + 1 implies !#[trigger] base.mapped(v) by {}
                }
                base.lemma_map_pages(start_vpn, (i + 1) as nat, perm);
            }
            let ghost prev = base.map_pages(start_vpn, i as nat, perm);
            let f: usize = self.frame_allocator.frame_alloc().unwrap();
            frames.push(f);
            i = i + 1;
            proof {
                let cur = base.map_pages(start_vpn, i as nat, perm);
                assert(cur == prev.map_page((start_vpn + i - 1) as usize, perm));
                assert forall|j: int| 0 <= j < i implies (#[trigger] cur.pages[(start_vpn
                    + j) as usize]).ppn == frames@[j] by {
                    if j < i - 1 {
                        assert(prev.pages[(start_vpn + j) as usize].ppn == frames@[j]);
                    }
                }
            }
        }
        self.areas.push(MapArea { start_vpn, perm, frames });
        proof {
            let target = base.map_pages(start_vpn, n as nat, perm);
            base.lemma_map_pages(start_vpn, n as nat, perm);
            let last = old(self).areas.len() as int;
            assert(self.areas[last].contains(start_vpn));
            assert forall|p: int, q: int|
                #![trigger self.areas[p], self.areas[q]]
                0 <= p < self.areas.len() && 0 <= q < self.areas.len() && p
                    != q implies self.areas[p].end_vpn() <= self.areas[q].start_vpn
                || self.areas[q].end_vpn() <= self.areas[p].start_vpn by {
                if p == last || q == last {
                    let o = if p == last { q } else { p };
                    assert(self.areas[o] == old(self).areas[o]);
                    let a = old(self).areas[o];
                    assert(a.frames.len() > 0);
                    if !(a.end_vpn() <= start_vpn || start_vpn + n <= a.start_vpn) {
                        let v: usize = if a.start_vpn >= start_vpn {
                            a.start_vpn
                        } else {
                            start_vpn
                        };
                        assert(a.contains(v));
                        old(self).lemma_area_unique(v, o);
                        assert(base.mapped(v));
                    }
                } else {
                    assert(self.areas[p] == old(self).areas[p]);
                    assert(self.areas[q] == old(self).areas[q]);
                }
            }
            assert forall|v: usize| self@.pages.dom().contains(v) <==> target.pages.dom().contains(
                v,
            ) by {
                if self.covering(v) {
                    let p = self.area_of(v);
                    if p != last {
                        assert(old(self).areas[p].contains(v));
                        old(self).lemma_area_unique(v, p);
                    }
                }
                if base.mapped(v) {
                    let j = old(self).area_of(v);
                    assert(self.areas[j].contains(v));
                }
                if start_vpn <= v < start_vpn + n {
                    assert(self.areas[last].contains(v));
                }
            }
            assert forall|v: usize| self@.pages.dom().contains(v) implies #[trigger] self@.pages[v]
                == target.pages[v] by {
                let p = self.area_of(v);
                assert(self.areas[p].contains(v));
                if p == last {
                    assert(target.pages[v].perm == perm);
                    assert(target.pages[(start_vpn + (v - start_vpn)) as usize].ppn
                        == frames@[v - start_vpn]);
                } else {
                    assert(old(self).areas[p] == self.areas[p]);
                    old(self).lemma_area_unique(v, p);
                }
            }
            assert(self@.pages =~= target.pages);
        }
    }

    /// Unmaps the `n` mapped pages from `start_vpn` on, in ascending order.
    pub fn unmap_range(&mut self, start_vpn: usize, n: usize)
        requires
            old(self).wf(),
            old(self)@.range_mapped(start_vpn, n as nat),
            start_vpn + n <= page_count(),
        ensures
            final(self).wf(),
            final(self)@ == old(self)@.unmap_pages(start_vpn, n as nat),
    {
        let mut i: usize = 0;
        let ghost base = old(self)@;
        while i < n
            invariant
                i <= n,
                start_vpn + n <= page_count(),
                base.wf(),
                base.range_mapped(start_vpn, n as nat),
                self.wf(),
                self@ == base.unmap_pages(start_vpn, i as nat),
            decreases n - i,
        {
            proof {
                assert(base.range_mapped(start_vpn, i as nat)) by {
                    assert forall|v: usize| start_vpn <= v < start_vpn + i implies #[trigger] base.mapped(
                        v,
                    ) by {}
                }
                base.lemma_unmap_pages(start_vpn, i as nat);
                assert(base.mapped((start_vpn + i) as usize));
                assert(self@.pages.dom().contains((start_vpn + i) as usize));
            }
            self.unmap_page(start_vpn + i);
            i = i + 1;
        }
    }

    /// The physical address of the virtual address `va`, if its page is mapped.
    pub fn translate(&self, va: usize) -> (pa: Option<usize>)
        requires
            self.wf(),
        ensures
            pa == self@.translate(va),
    {
        let vpn: usize = va / PAGE_SIZE;
        match self.find_area(vpn) {
            Some(i) => {
                proof {
                    self.lemma_area_unique(vpn, i as int);
                    assert(self@.pages[vpn].ppn < self@.frames.current);
                }
                let ppn: usize = self.areas[i].frames[vpn - self.areas[i].start_vpn];
                Some(ppn * PAGE_SIZE + va % PAGE_SIZE)
            },
            None => None,
        }
    }

    /// Maps `len` bytes at `start` with the permission bits `perm`: every page
    /// that the range touches gets a frame. Returns 0, or -1 with nothing
    /// changed when the range does not end within the address space, touches
    /// a mapped page, or needs more frames than are left.
    pub fn mmap(&mut self, start: usize, len: usize, perm: usize) -> (code: isize)
        requires
            old(self).wf(),
        ensures
            final(self).wf(),
            final(self)@ == old(self)@.mmap(start, len, perm),
            code == if old(self)@.can_mmap(start, len) { 0isize } else { -1isize },
    {
        if len > usize::MAX - start {
            return -1;
        }
        let start_vpn: usize = start / PAGE_SIZE;
        let end_vpn: usize = page_ceil(start + len);
        let n: usize = if len == 0 { 0 } else { end_vpn - start_vpn };
        if !self.range_is_unmapped(start_vpn, n) {
            return -1;
        }
        if !self.frame_allocator.has_available(n) {
            return -1;
        }
        self.map_range(start_vpn, n, perm);
        0
    }

    /// Unmaps `len` bytes at `start`: every page that the range touches loses
    /// its frame. Returns 0, or -1 with nothing changed when the range does
    /// not end within the address space or touches a page that is not mapped.
    pub fn munmap(&mut self, start: usize, len: usize) -> (code: isize)
        requires
            old(self).wf(),
        ensures
            final(self).wf(),
            final(self)@ == old(self)@.munmap(start, len),
            code == if old(self)@.can_munmap(start, len) { 0isize } else { -1isize },
    {
        if len > usize::MAX - start {
            return -1;
        }
        let start_vpn: usize = start / PAGE_SIZE;
        let end_vpn: usize = page_ceil(start + len);
        let n: usize = if len == 0 { 0 } else { end_vpn - start_vpn };
        if !self.range_is_mapped(start_vpn, n) {
            return -1;
        }
        self.unmap_range(start_vpn, n);
        0
    }

    /// Moves the program break by `size` bytes and returns the old break, or
    /// `None` with nothing changed when the move is not possible.
    pub fn change_program_brk(&mut self, size: i32) -> (old_brk: Option<usize>)
        requires
            old(self).wf(),
        ensures
            final(self).wf(),
            final(self)@ == old(self)@.sbrk(size as int),
            old_brk == if old(self)@.can_sbrk(size as int) {
                Some(old(self)@.program_brk)
            } else {
                None
            },
    {
        let old_break: usize = self.program_brk;
        let old_end: usize = page_ceil(old_break);
        if size >= 0 {
            let inc: usize = size as usize;
            if inc > usize::MAX - old_break {
                return None;
            }
            let new_brk: usize = old_break + inc;
            let new_end: usize = page_ceil(new_brk);
            let n: usize = new_end - old_end;
            if !self.range_is_unmapped(old_end, n) {
                return None;
            }
            if !self.frame_allocator.has_available(n) {
                return None;
            }
            self.map_range(old_end, n, 3);
            let ghost mid = *self;
            self.program_brk = new_brk;
            proof {
                old(self)@.lemma_map_pages(old_end, n as nat, 3);
                assert(self@.pages =~= mid@.pages);
            }
            Some(old_break)
        } else {
            let dec: usize = (-(size as i64)) as usize;
            if dec > old_break - self.heap_bottom {
                return None;
            }
            let new_brk: usize = old_break - dec;
            let new_end: usize = page_ceil(new_brk);
            let n: usize = old_end - new_end;
            if !self.range_is_mapped(new_end, n) {
                return None;
            }
            self.unmap_range(new_end, n);
            let ghost mid = *self;
            self.program_brk = new_brk;
            proof {
                old(self)@.lemma_unmap_pages(new_end, n as nat);
                assert(self@.pages =~= mid@.pages);
            }
            Some(old_break)
        }
    }
}

impl MemorySetView {
    /// Whether each of the `len` bytes at `va` lies in a mapped page.
    pub open spec fn buffer_mapped(self, va: usize, len: usize) -> bool {
        &&& va + len <= usize::MAX
        &&& self.range_mapped(page_of(va as int) as usize, span(va, len))
    }

    /// The physical range of the part of the buffer of `len` bytes at `va`
    /// that lies in the `k`-th page that the buffer touches.
    pub open spec fn segment_at(self, va: usize, len: usize, k: int) -> Segment {
        let vpn = page_of(va as int) + k;
        let lo = if k == 0 {
            va as int
        } else {
            vpn * PAGE_SIZE
        };
        let hi = if (vpn + 1) * PAGE_SIZE < va + len {
            (vpn + 1) * PAGE_SIZE
        } else {
            va + len
        };
        Segment { pa: self.translate(lo as usize)->0, len: (hi - lo) as usize }
    }

    /// The physical ranges of the buffer of `len` bytes at `va`, page by page.
    pub open spec fn segments(self, va: usize, len: usize) -> Seq<Segment> {
        Seq::new(span(va, len), |k: int| self.segment_at(va, len, k))
    }
}

impl MemorySet {
    /// The token that names this address space.
    pub fn token(&self) -> (token: usize)
        ensures
            token == self@.token,
    {
        self.token
    }

    /// The physical ranges of the buffer of `len` bytes at the virtual
    /// address `va`, one for each page that the buffer touches, in order; or
    /// `None` if the buffer does not lie in mapped pages.
    pub fn translated_byte_buffer(&self, va: usize, len: usize) -> (segs: Option<Vec<Segment>>)
        requires
            self.wf(),
        ensures
            self@.buffer_mapped(va, len) ==> segs is Some && segs->0@ == self@.segments(va, len),
            !self@.buffer_mapped(va, len) ==> segs is None,
    {
        if len > usize::MAX - va {
            return None;
        }
        let start_vpn: usize = va / PAGE_SIZE;
        let end_vpn: usize = page_ceil(va + len);
        let n: usize = if len == 0 { 0 } else { end_vpn - start_vpn };
        if !self.range_is_mapped(start_vpn, n) {
            return None;
        }
        let mut v: Vec<Segment> = Vec::new();
        let mut k: usize = 0;
        while k < n
            invariant
                k <= n,
                self.wf(),
                len > 0 || n == 0,
                va + len <= usize::MAX,
                start_vpn == page_of(va as int),
                n == span(va, len),
                self@.range_mapped(start_vpn, n as nat),
                v@.len() == k,
                forall|j: int| 0 <= j < k ==> #[trigger] v@[j] == self@.segment_at(va, len, j),
            decreases n - k,
        {
            let vpn: usize = start_vpn + k;
            let lo: usize = if k == 0 { va } else { vpn * PAGE_SIZE };
            let page_last: usize = vpn * PAGE_SIZE + (PAGE_SIZE - 1);
            let buf_last: usize = va + (len - 1);
            let last: usize = if page_last < buf_last { page_last } else { buf_last };
            proof {
                assert(self@.mapped(vpn));
                assert(lo / PAGE_SIZE == vpn);
            }
            let pa: usize = self.translate(lo).unwrap();
            v.push(Segment { pa, len: last - lo + 1 });
            k = k + 1;
        }
        proof {
            assert(v@ =~= self@.segments(va, len));
        }
        Some(v)
    }
}

impl MemorySetView {
    /// A move of the program break keeps the page table well formed.
    pub proof fn lemma_sbrk(self, delta: int)
        requires
            self.wf(),
        ensures
            self.sbrk(delta).wf(),
    {
        let new_brk = self.program_brk + delta;
        if self.can_sbrk(delta) {
            if delta >= 0 {
                self.lemma_map_pages(
                    page_after(self.program_brk as int) as usize,
                    (page_after(new_brk) - page_after(self.program_brk as int)) as nat,
                    3,
                );
            } else {
                self.lemma_unmap_pages(
                    page_after(new_brk) as usize,
                    (page_after(self.program_brk as int) - page_after(new_brk)) as nat,
                );
            }
        }
    }
}

} // verus!
