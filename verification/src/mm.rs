//! Physical memory: which page frames are free, and which addresses the firmware
//! vouches for.
//!
//! A frame is one 4 KiB page of physical memory. The allocator keeps one bit per
//! frame in a bitmap that itself lies in a piece of the memory it manages.

use crate::boot::{MemmapEntry, MemmapResponse, MEMMAP_USABLE};
#[allow(unused_imports)]
use crate::bits::{bit, lemma_bit_update, lemma_lowest_bit, lemma_zero_byte};
use crate::console::{print, say, say_hex, Console};
#[allow(unused_imports)]
use crate::console::{after_text, hex_text, lemma_texts_join, ready, screen_of, ConsoleView};
use vstd::prelude::*;
#[allow(unused_imports)]
use vstd::string::StringSliceAdditionalSpecFns;

verus! {

/// The size of a page.
pub const PAGE_SIZE: u64 = 4096;

/// Memory below this address is never used for the bitmap: firmware leftovers
/// live there.
pub const BITMAP_FLOOR: u64 = 0x10_0000;

/// How many sections the snapshot of the memory map keeps.
pub const MAX_REGIONS: usize = 128;

/// The allocator: a bit per frame, set while the frame is free; how many frames
/// there are; and where the last search ended.
pub struct FrameAllocator<'a> {
    pub bitmap: &'a mut [u8],
    pub frames: u64,
    pub next_hint: u64,
}

/// The allocator as a value: whether each frame is free, and the search cursor.
#[verifier::ext_equal]
pub struct FrameView {
    pub free: Seq<bool>,
    pub hint: int,
}

/// The lowest free frame from `from` on.
pub open spec fn lowest_free(free: Seq<bool>, from: int) -> Option<int>
    decreases free.len() - from,
{
    if from < 0 || from >= free.len() {
        None
    } else if free[from] {
        Some(from)
    } else {
        lowest_free(free, from + 1)
    }
}

/// How many frames are free.
pub open spec fn free_count(free: Seq<bool>) -> nat
    decreases free.len(),
{
    if free.len() == 0 {
        0
    } else {
        free_count(free.drop_last()) + if free.last() {
            1nat
        } else {
            0nat
        }
    }
}

/// Whether the `n` frames from `start` on all exist and are free.
pub open spec fn run_at(free: Seq<bool>, start: int, n: int) -> bool {
    &&& 0 <= start
    &&& start + n <= free.len()
    &&& forall|p: int| start <= p < start + n ==> free[p]
}

impl FrameView {
    /// No frame below the byte that the cursor points into is free.
    pub open spec fn wf(self) -> bool {
        &&& 0 <= self.hint <= self.free.len()
        &&& forall|p: int| 0 <= p < self.hint / 8 * 8 && p < self.free.len() ==> !self.free[p]
    }

    /// The frame that the next allocation hands out.
    pub open spec fn next(self) -> Option<int> {
        lowest_free(self.free, 0)
    }

    /// The allocator after one allocation.
    pub open spec fn taken(self) -> FrameView {
        match self.next() {
            Some(p) => FrameView { free: self.free.update(p, false), hint: p },
            None => self,
        }
    }

    /// The allocator after frame `p` has come back.
    pub open spec fn returned(self, p: int) -> FrameView {
        FrameView {
            free: self.free.update(p, true),
            hint: if p < self.hint {
                p
            } else {
                self.hint
            },
        }
    }
}

/// What the lowest free frame is: free, with no free frame before it; and there
/// is none exactly if no frame is free.
pub proof fn lemma_lowest_free(free: Seq<bool>, from: int)
    requires
        0 <= from,
    ensures
        lowest_free(free, from) matches Some(p) ==> from <= p < free.len() && free[p] && forall|q: int|
            from <= q < p ==> !free[q],
        lowest_free(free, from) is None ==> forall|q: int| from <= q < free.len() ==> !free[q],
    decreases free.len() - from,
{
    if from < free.len() && !free[from] {
        lemma_lowest_free(free, from + 1);
    }
}

/// A frame that is free and has no free frame before it is the lowest.
proof fn lemma_is_lowest(free: Seq<bool>, from: int, p: int)
    requires
        0 <= from <= p < free.len(),
        free[p],
        forall|q: int| from <= q < p ==> !free[q],
    ensures
        lowest_free(free, from) == Some(p),
    decreases p - from,
{
    if from < p {
        lemma_is_lowest(free, from + 1, p);
    }
}

/// Without a free frame there is no lowest one.
proof fn lemma_none_free(free: Seq<bool>, from: int)
    requires
        0 <= from,
        forall|q: int| from <= q < free.len() ==> !free[q],
    ensures
        lowest_free(free, from) is None,
    decreases free.len() - from,
{
    if from < free.len() {
        lemma_none_free(free, from + 1);
    }
}

/// Marking a frame moves the count of free frames by one.
proof fn lemma_count_update(free: Seq<bool>, p: int, v: bool)
    requires
        0 <= p < free.len(),
    ensures
        free_count(free.update(p, v)) + (if free[p] {
            1int
        } else {
            0
        }) == free_count(free) + (if v {
            1int
        } else {
            0
        }),
    decreases free.len(),
{
    if p == free.len() - 1 {
        assert(free.update(p, v).drop_last() =~= free.drop_last());
    } else {
        assert(free.update(p, v).drop_last() =~= free.drop_last().update(p, v));
        lemma_count_update(free.drop_last(), p, v);
    }
}

impl<'a> View for FrameAllocator<'a> {
    type V = FrameView;

    open spec fn view(&self) -> FrameView {
        FrameView {
            free: Seq::new(
                self.frames as nat,
                |p: int| bit(self.bitmap@[p / 8], (p % 8) as u8),
            ),
            hint: self.next_hint as int,
        }
    }
}

impl<'a> FrameAllocator<'a> {
    /// The bitmap has a bit for every frame, and bits past the last frame are
    /// clear.
    pub open spec fn shaped(&self) -> bool {
        &&& self.frames * PAGE_SIZE <= u64::MAX
        &&& self.bitmap@.len() == (self.frames + 7) / 8
        &&& forall|p: int|
            self.frames <= p < 8 * self.bitmap@.len() ==> !bit(
                #[trigger] self.bitmap@[p / 8],
                (p % 8) as u8,
            )
    }

    /// In addition the cursor is right.
    pub open spec fn wf(&self) -> bool {
        &&& self.shaped()
        &&& self@.wf()
    }

    /// Marks a frame as free.
    pub fn set_free(&mut self, pfn: u64)
        requires
            old(self).shaped(),
            pfn < old(self).frames,
        ensures
            final(self).shaped(),
            final(self).frames == old(self).frames,
            final(self)@ == (FrameView { free: old(self)@.free.update(pfn as int, true), ..old(self)@ }),
    {
        let i: usize = (pfn / 8) as usize;
        let k: u8 = (pfn % 8) as u8;
        self.bitmap[i] = self.bitmap[i] | (1u8 << k);
        proof {
            let b = old(self).bitmap@[i as int];
            assert forall|p: int| 0 <= p < 8 * self.bitmap@.len() implies bit(
                #[trigger] self.bitmap@[p / 8],
                (p % 8) as u8,
            ) == (p == pfn || bit(old(self).bitmap@[p / 8], (p % 8) as u8)) by {
                lemma_bit_update(b, k, (p % 8) as u8);
            }
            assert(self@.free =~= old(self)@.free.update(pfn as int, true));
        }
    }

    /// Marks a frame as used.
    pub fn set_used(&mut self, pfn: u64)
        requires
            old(self).shaped(),
            pfn < old(self).frames,
        ensures
            final(self).shaped(),
            final(self).frames == old(self).frames,
            final(self)@ == (FrameView { free: old(self)@.free.update(pfn as int, false), ..old(self)@ }),
    {
        let i: usize = (pfn / 8) as usize;
        let k: u8 = (pfn % 8) as u8;
        self.bitmap[i] = self.bitmap[i] & !(1u8 << k);
        proof {
            let b = old(self).bitmap@[i as int];
            assert forall|p: int| 0 <= p < 8 * self.bitmap@.len() implies bit(
                #[trigger] self.bitmap@[p / 8],
                (p % 8) as u8,
            ) == (p != pfn && bit(old(self).bitmap@[p / 8], (p % 8) as u8)) by {
                lemma_bit_update(b, k, (p % 8) as u8);
            }
            assert(self@.free =~= old(self)@.free.update(pfn as int, false));
        }
    }

    /// Whether a frame is free.
    pub fn is_free(&self, pfn: u64) -> (free: bool)
        requires
            self.shaped(),
            pfn < self.frames,
        ensures
            free == self@.free[pfn as int],
    {
        (self.bitmap[(pfn / 8) as usize] >> ((pfn % 8) as u8)) & 1u8 == 1u8
    }

    /// Counts the free frames.
    pub fn count_free(&self) -> (free: u64)
        requires
            self.shaped(),
        ensures
            free == free_count(self@.free),
    {
        let mut free: u64 = 0;
        let mut pfn: u64 = 0;
        while pfn < self.frames
            invariant
                self.shaped(),
                pfn <= self.frames,
                free <= pfn,
                free == free_count(self@.free.take(pfn as int)),
            decreases self.frames - pfn,
        {
            assert(self@.free.take(pfn + 1).drop_last() =~= self@.free.take(pfn as int));
            if self.is_free(pfn) {
                free = free + 1;
            }
            pfn = pfn + 1;
        }
        assert(self@.free.take(pfn as int) =~= self@.free);
        free
    }

    /// Hands out the lowest free frame and gives its address.
    pub fn take_lowest(&mut self) -> (frame: Option<u64>)
        requires
            old(self).wf(),
        ensures
            final(self).wf(),
            final(self).frames == old(self).frames,
            final(self)@ == old(self)@.taken(),
            match old(self)@.next() {
                Some(p) => frame == Some((p * PAGE_SIZE) as u64) && p * PAGE_SIZE <= u64::MAX,
                None => frame is None,
            },
    {
        let n: usize = self.bitmap.len();
        let mut i: usize = (self.next_hint / 8) as usize;
        let ghost start = self@;
        while i < n
            invariant
                *self == *old(self),
                start == self@,
                self.wf(),
                n == self.bitmap@.len(),
                forall|p: int| 0 <= p < i * 8 && p < self.frames ==> !self@.free[p],
            decreases n - i,
        {
            let byte: u8 = self.bitmap[i];
            if byte != 0 {
                let tz: u8 = byte.trailing_zeros() as u8;
                proof {
                    lemma_lowest_bit(byte, tz);
                    let p = i * 8 + tz;
                    assert(p / 8 == i && p % 8 == tz);
                    assert(bit(self.bitmap@[p / 8], (p % 8) as u8));
                    assert(p < self.frames);
                    assert forall|q: int| 0 <= q < p implies !self@.free[q] by {
                        if q >= i * 8 {
                            assert(q / 8 == i && q % 8 == q - i * 8);
                            assert(!bit(byte, (q % 8) as u8));
                        }
                    }
                    lemma_is_lowest(self@.free, 0, p);
                    assert(p * PAGE_SIZE <= self.frames * PAGE_SIZE);
                }
                let pfn: u64 = i as u64 * 8 + tz as u64;
                self.set_used(pfn);
                self.next_hint = pfn;
                return Some(pfn * PAGE_SIZE);
            }
            proof {
                assert forall|p: int| 0 <= p < (i + 1) * 8 && p < self.frames implies !self@.free[p] by {
                    if p >= i * 8 {
                        assert(p / 8 == i);
                        lemma_zero_byte((p % 8) as u8);
                    }
                }
            }
            i = i + 1;
        }
        proof {
            lemma_none_free(self@.free, 0);
        }
        None
    }
}

impl<'a> FrameAllocator<'a> {
    /// Hands out `pages` free frames in a row, the first such run there is, and
    /// gives the address of the first. Asking for no frame at all gets nothing.
    pub fn take_run(&mut self, pages: u64) -> (frame: Option<u64>)
        requires
            old(self).wf(),
        ensures
            final(self).wf(),
            final(self).frames == old(self).frames,
            match frame {
                Some(phys) => {
                    let start = phys as int / PAGE_SIZE as int;
                    &&& phys == start * PAGE_SIZE
                    &&& 1 <= pages
                    &&& run_at(old(self)@.free, start, pages as int)
                    &&& forall|s: int| 0 <= s < start ==> !run_at(old(self)@.free, s, pages as int)
                    &&& final(self)@ == old(self)@.without_run(start, pages as int)
                },
                None => {
                    &&& final(self)@ == old(self)@
                    &&& pages == 0 || forall|s: int| !run_at(old(self)@.free, s, pages as int)
                },
            },
    {
        let ghost v = self@;
        let mut run_start: u64 = 0;
        let mut run_len: u64 = 0;
        let mut pfn: u64 = 0;
        while pfn < self.frames
            invariant
                *self == *old(self),
                v == self@,
                self.wf(),
                pfn <= self.frames,
                run_len <= pfn,
                run_len > 0 ==> run_start + run_len == pfn,
                forall|p: int| pfn - run_len <= p < pfn ==> v.free[p],
                run_len < pfn ==> !v.free[pfn - run_len - 1],
                pages > 0 ==> run_len < pages,
                pages > 0 ==> forall|s: int| #![trigger run_at(v.free, s, pages as int)]
                    s + pages <= pfn ==> !run_at(v.free, s, pages as int),
            decreases self.frames - pfn,
        {
            if self.is_free(pfn) {
                if run_len == 0 {
                    run_start = pfn;
                }
                run_len = run_len + 1;
                if run_len == pages {
                    proof {
                        assert(run_at(v.free, run_start as int, pages as int));
                        assert(run_start * PAGE_SIZE <= self.frames * PAGE_SIZE);
                    }
                    self.clear_run(run_start, pages);
                    return Some(run_start * PAGE_SIZE);
                }
                proof {
                    assert forall|s: int| #![trigger run_at(v.free, s, pages as int)]
                        pages > 0 && s + pages <= pfn + 1 implies !run_at(v.free, s, pages as int) by {
                        if s + pages == pfn + 1 && run_at(v.free, s, pages as int) {
                            assert(v.free[pfn - (run_len - 1) - 1]);
                        }
                    }
                }
            } else {
                run_len = 0;
                proof {
                    assert forall|s: int| #![trigger run_at(v.free, s, pages as int)]
                        pages > 0 && s + pages <= pfn + 1 implies !run_at(v.free, s, pages as int) by {
                        if s + pages == pfn + 1 && run_at(v.free, s, pages as int) {
                            assert(v.free[pfn as int]);
                        }
                    }
                }
            }
            pfn = pfn + 1;
        }
        None
    }

    /// Marks a run of free frames as used.
    fn clear_run(&mut self, start: u64, pages: u64)
        requires
            old(self).wf(),
            start + pages <= old(self).frames,
        ensures
            final(self).wf(),
            final(self).frames == old(self).frames,
            final(self)@ == old(self)@.without_run(start as int, pages as int),
    {
        let ghost v = self@;
        let mut p: u64 = start;
        assert(self@ =~= v.without_run(start as int, 0));
        while p < start + pages
            invariant
                start <= p <= start + pages,
                start + pages <= self.frames,
                self.frames == old(self).frames,
                self.shaped(),
                v.free.len() == self.frames,
                self@ == v.without_run(start as int, p - start),
            decreases start + pages - p,
        {
            self.set_used(p);
            p = p + 1;
            assert(self@ =~= v.without_run(start as int, p - start));
        }
    }

    /// Takes frame `pfn` back. The cursor goes back to it if it had passed it.
    pub fn give_back(&mut self, pfn: u64)
        requires
            old(self).wf(),
            pfn < old(self).frames,
        ensures
            final(self).wf(),
            final(self).frames == old(self).frames,
            final(self)@ == old(self)@.returned(pfn as int),
    {
        self.set_free(pfn);
        if pfn < self.next_hint {
            self.next_hint = pfn;
        }
    }
}

impl FrameView {
    /// The allocator after `n` frames from `start` on have been handed out.
    pub open spec fn without_run(self, start: int, n: int) -> FrameView {
        FrameView {
            free: Seq::new(
                self.free.len(),
                |p: int| self.free[p] && !(start <= p < start + n),
            ),
            ..self
        }
    }
}

/// Where the usable memory ends.
pub open spec fn usable_top(entries: Seq<MemmapEntry>) -> int
    decreases entries.len(),
{
    if entries.len() == 0 {
        0
    } else {
        let rest = usable_top(entries.drop_last());
        let e = entries.last();
        if e.kind == MEMMAP_USABLE && e.base + e.length > rest {
            e.base + e.length
        } else {
            rest
        }
    }
}

/// No usable section reaches past the end of the address space or starts in its
/// last page.
pub open spec fn sane(entries: Seq<MemmapEntry>) -> bool {
    forall|i: int|
        0 <= i < entries.len() && (#[trigger] entries[i]).kind == MEMMAP_USABLE ==> entries[i].base
            + entries[i].length <= u64::MAX && entries[i].base + PAGE_SIZE - 1 <= u64::MAX
}

/// How many bytes a bitmap for `frames` frames takes.
pub open spec fn bitmap_bytes(frames: int) -> int {
    (frames + 7) / 8
}

/// Whether a section can take the bitmap in.
pub open spec fn can_host(e: MemmapEntry, len: int) -> bool {
    e.kind == MEMMAP_USABLE && e.base >= BITMAP_FLOOR && e.length >= len
}

/// Where the first section that can take the bitmap in starts.
pub open spec fn bitmap_host(entries: Seq<MemmapEntry>, len: int) -> Option<u64>
    decreases entries.len(),
{
    if entries.len() == 0 {
        None
    } else {
        match bitmap_host(entries.drop_last(), len) {
            Some(base) => Some(base),
            None => if can_host(entries.last(), len) {
                Some(entries.last().base)
            } else {
                None
            },
        }
    }
}

/// What the bitmap host is: the base of a section that can take the bitmap in,
/// the first of its kind; and there is none exactly if no section can.
pub proof fn lemma_bitmap_host(entries: Seq<MemmapEntry>, len: int)
    ensures
        bitmap_host(entries, len) matches Some(base) ==> exists|i: int|
            0 <= i < entries.len() && can_host(#[trigger] entries[i], len) && entries[i].base == base
                && forall|j: int| 0 <= j < i ==> !can_host(#[trigger] entries[j], len),
        bitmap_host(entries, len) is None ==> forall|i: int|
            0 <= i < entries.len() ==> !can_host(#[trigger] entries[i], len),
    decreases entries.len(),
{
    if entries.len() > 0 {
        let rest = entries.drop_last();
        lemma_bitmap_host(rest, len);
        if bitmap_host(rest, len) is Some {
            let i = choose|i: int|
                0 <= i < rest.len() && can_host(#[trigger] rest[i], len) && rest[i].base
                    == bitmap_host(rest, len)->0 && forall|j: int|
                    0 <= j < i ==> !can_host(#[trigger] rest[j], len);
            assert(can_host(entries[i], len));
            assert forall|j: int| 0 <= j < i implies !can_host(#[trigger] entries[j], len) by {
                assert(!can_host(rest[j], len));
            }
        } else {
            assert forall|j: int| 0 <= j < rest.len() implies !can_host(#[trigger] entries[j], len) by {
                assert(!can_host(rest[j], len));
            }
            if can_host(entries.last(), len) {
                assert(can_host(entries[entries.len() - 1], len));
            }
        }
    }
}

/// Whether frame `p` lies whole inside a usable section.
pub open spec fn usable_frame(entries: Seq<MemmapEntry>, p: int) -> bool {
    exists|i: int|
        0 <= i < entries.len() && (#[trigger] entries[i]).kind == MEMMAP_USABLE && entries[i].base
            <= p * PAGE_SIZE && (p + 1) * PAGE_SIZE <= entries[i].base + entries[i].length
}

/// Whether frame `p` is one of those that the bitmap, `len` bytes at `base`, lies
/// in.
pub open spec fn bitmap_frame(base: int, len: int, p: int) -> bool {
    base / PAGE_SIZE as int <= p && p * PAGE_SIZE < base + len
}

/// How an allocator for a memory map will look: where usable memory ends, how
/// many frames that makes, the size of the bitmap and where it goes.
#[derive(Clone, Copy)]
pub struct Plan {
    pub top: u64,
    pub frames: u64,
    pub bitmap_len: u64,
    pub bitmap_phys: Option<u64>,
}

/// The frames below the end of usable memory.
pub open spec fn frames_of(entries: Seq<MemmapEntry>) -> int {
    usable_top(entries) / PAGE_SIZE as int
}

/// Where the bitmap for a memory map goes.
pub open spec fn home_of(entries: Seq<MemmapEntry>) -> Option<u64> {
    bitmap_host(entries, bitmap_bytes(frames_of(entries)))
}

/// The usable end of a map is an end of one of its usable sections, or zero.
proof fn lemma_usable_top(entries: Seq<MemmapEntry>)
    requires
        sane(entries),
    ensures
        0 <= usable_top(entries) <= u64::MAX,
        forall|i: int|
            0 <= i < entries.len() && (#[trigger] entries[i]).kind == MEMMAP_USABLE
                ==> entries[i].base + entries[i].length <= usable_top(entries),
    decreases entries.len(),
{
    if entries.len() > 0 {
        let rest = entries.drop_last();
        assert forall|i: int| 0 <= i < rest.len() && (#[trigger] rest[i]).kind == MEMMAP_USABLE implies rest[i].base
            + rest[i].length <= u64::MAX && rest[i].base + PAGE_SIZE - 1 <= u64::MAX by {
            assert(entries[i].kind == MEMMAP_USABLE);
        }
        lemma_usable_top(rest);
        assert(entries[entries.len() - 1] == entries.last());
        assert forall|i: int|
            0 <= i < entries.len() && (#[trigger] entries[i]).kind == MEMMAP_USABLE implies entries[i].base
            + entries[i].length <= usable_top(entries) by {
            if i < rest.len() {
                assert(rest[i].kind == MEMMAP_USABLE);
            }
        }
    }
}

/// Plans the allocator for a memory map.
pub fn plan(entries: &[MemmapEntry]) -> (p: Plan)
    requires
        sane(entries@),
    ensures
        p.top == usable_top(entries@),
        p.frames == frames_of(entries@),
        p.bitmap_len == bitmap_bytes(frames_of(entries@)),
        p.bitmap_phys == home_of(entries@),
{
    proof {
        lemma_usable_top(entries@);
    }
    let mut top: u64 = 0;
    let mut i: usize = 0;
    while i < entries.len()
        invariant
            i <= entries@.len(),
            sane(entries@),
            top == usable_top(entries@.take(i as int)),
        decreases entries@.len() - i,
    {
        assert(entries@.take(i + 1).drop_last() =~= entries@.take(i as int));
        let e = entries[i];
        if e.kind == MEMMAP_USABLE {
            assert(entries@[i as int].kind == MEMMAP_USABLE);
            if e.base + e.length > top {
                top = e.base + e.length;
            }
        }
        i = i + 1;
    }
    assert(entries@.take(i as int) =~= entries@);
    let frames: u64 = top / PAGE_SIZE;
    let bitmap_len: u64 = (frames + 7) / 8;
    let mut bitmap_phys: Option<u64> = None;
    let mut j: usize = 0;
    while j < entries.len() && bitmap_phys.is_none()
        invariant
            j <= entries@.len(),
            bitmap_phys == bitmap_host(entries@.take(j as int), bitmap_len as int),
        decreases entries@.len() - j,
    {
        assert(entries@.take(j + 1).drop_last() =~= entries@.take(j as int));
        let e = entries[j];
        if e.kind == MEMMAP_USABLE && e.base >= BITMAP_FLOOR && e.length >= bitmap_len {
            bitmap_phys = Some(e.base);
        }
        j = j + 1;
    }
    proof {
        lemma_host_stays(entries@, j as int, bitmap_len as int);
    }
    Plan { top, frames, bitmap_len, bitmap_phys }
}

/// Sections after the host do not change it.
proof fn lemma_host_stays(entries: Seq<MemmapEntry>, n: int, len: int)
    requires
        0 <= n <= entries.len(),
        n == entries.len() || bitmap_host(entries.take(n), len) is Some,
    ensures
        bitmap_host(entries, len) == bitmap_host(entries.take(n), len),
    decreases entries.len() - n,
{
    if n < entries.len() {
        assert(entries.take(n + 1).drop_last() =~= entries.take(n));
        lemma_host_stays(entries, n + 1, len);
    } else {
        assert(entries.take(n) =~= entries);
    }
}

/// One dot is shown for every so many frames marked.
pub const DOT_FRAMES: u64 = 0x4_0000;

/// How many frames from `start` on and before `end` have a number that earns a dot.
pub open spec fn dots(start: int, end: int) -> nat
    decreases end - start,
{
    if end <= start {
        0
    } else {
        dots(start, end - 1) + if (end - 1) % DOT_FRAMES as int == 0 {
            1nat
        } else {
            0nat
        }
    }
}

/// The dots that marking a section earns: those of the frames that lie whole in it,
/// if it is usable.
pub open spec fn section_dots(e: MemmapEntry) -> nat {
    if e.kind == MEMMAP_USABLE {
        dots((e.base + PAGE_SIZE - 1) / PAGE_SIZE as int, (e.base + e.length) / PAGE_SIZE as int)
    } else {
        0
    }
}

/// The dots of all sections.
pub open spec fn all_dots(entries: Seq<MemmapEntry>) -> nat
    decreases entries.len(),
{
    if entries.len() == 0 {
        0
    } else {
        all_dots(entries.drop_last()) + section_dots(entries.last())
    }
}

/// A row of dots.
pub open spec fn dot_text(n: nat) -> Seq<u8> {
    Seq::new(n, |i: int| 0x2Eu8)
}

/// The report on how the frame allocator is laid out: where usable memory ends and
/// how long the bitmap is, and, if a section can take the bitmap in, where it lies
/// and how it is filled.
pub open spec fn bitmap_text(entries: Seq<MemmapEntry>) -> Seq<u8> {
    let size = "mm: top=".spec_bytes() + hex_text(usable_top(entries) as nat)
        + " bitmap=".spec_bytes() + hex_text(bitmap_bytes(frames_of(entries)) as nat)
        + "\n".spec_bytes();
    match home_of(entries) {
        Some(at) => size + "mm: bitmap at ".spec_bytes() + hex_text(at as nat) + "\n".spec_bytes()
            + "mm: zeroing ".spec_bytes() + "done\n".spec_bytes() + "mm: marking".spec_bytes()
            + dot_text(all_dots(entries)) + "\n".spec_bytes() + "mm: bitmap ready\n".spec_bytes(),
        None => size,
    }
}

/// What a new allocator is: it covers the frames of the memory map, and those are
/// free that lie whole in a usable section, but for the ones of the bitmap itself.
pub open spec fn built_for(a: FrameAllocator, entries: Seq<MemmapEntry>) -> bool {
    &&& a.frames == frames_of(entries)
    &&& a.next_hint == 0
    &&& forall|p: int|
        0 <= p < a.frames ==> #[trigger] a@.free[p] == (usable_frame(entries, p) && !bitmap_frame(
            home_of(entries)->0 as int,
            bitmap_bytes(a.frames as int),
            p,
        ))
}

impl<'a> FrameAllocator<'a> {
    /// Builds the allocator for a memory map over the storage of its bitmap:
    /// every frame that lies whole in a usable section is free, but for those of
    /// the bitmap itself. There is no allocator if no section can take the
    /// bitmap in.
    pub fn from_memmap(resp: &MemmapResponse, storage: &'a mut [u8]) -> (allocator: Option<Self>)
        requires
            sane(resp.entries@),
            home_of(resp.entries@) is Some ==> old(storage)@.len() == bitmap_bytes(
                frames_of(resp.entries@),
            ),
        ensures
            allocator is Some <==> home_of(resp.entries@) is Some,
            allocator matches Some(a) ==> {
                &&& a.wf()
                &&& built_for(a, resp.entries@)
            },
    {
        let mut unseen: Option<Console> = None;
        Self::from_memmap_shown(&mut unseen, resp, storage)
    }

    /// Builds the allocator and says on the screen how far it has come, each step
    /// once it is done.
    fn from_memmap_shown(
        con: &mut Option<Console>,
        resp: &MemmapResponse,
        storage: &'a mut [u8],
    ) -> (allocator: Option<Self>)
        requires
            ready(*old(con)),
            sane(resp.entries@),
            home_of(resp.entries@) is Some ==> old(storage)@.len() == bitmap_bytes(
                frames_of(resp.entries@),
            ),
        ensures
            allocator is Some <==> home_of(resp.entries@) is Some,
            allocator matches Some(a) ==> {
                &&& a.wf()
                &&& built_for(a, resp.entries@)
            },
            ready(*final(con)),
            screen_of(*final(con)) == after_text(screen_of(*old(con)), bitmap_text(resp.entries@)),
    {
        let entries = resp.entries();
        let plan = plan(entries);
        let ghost screen = screen_of(*con);
        let ghost t1 = "mm: top=".spec_bytes();
        let ghost t2 = t1 + hex_text(plan.top as nat);
        let ghost t3 = t2 + " bitmap=".spec_bytes();
        let ghost t4 = t3 + hex_text(plan.bitmap_len as nat);
        let ghost t5 = t4 + "\n".spec_bytes();
        print(con, "mm: top=");
        say_hex(con, plan.top, Ghost(screen), Ghost(t1));
        say(con, " bitmap=", Ghost(screen), Ghost(t2));
        say_hex(con, plan.bitmap_len, Ghost(screen), Ghost(t3));
        say(con, "\n", Ghost(screen), Ghost(t4));
        let bitmap_phys: u64 = match plan.bitmap_phys {
            Some(phys) => phys,
            None => {
                return None;
            },
        };
        let ghost t6 = t5 + "mm: bitmap at ".spec_bytes();
        let ghost t7 = t6 + hex_text(bitmap_phys as nat);
        let ghost t8 = t7 + "\n".spec_bytes();
        let ghost t9 = t8 + "mm: zeroing ".spec_bytes();
        let ghost t10 = t9 + "done\n".spec_bytes();
        let ghost t11 = t10 + "mm: marking".spec_bytes();
        let ghost t12 = t11 + dot_text(all_dots(entries@));
        let ghost t13 = t12 + "\n".spec_bytes();
        say(con, "mm: bitmap at ", Ghost(screen), Ghost(t5));
        say_hex(con, bitmap_phys, Ghost(screen), Ghost(t6));
        say(con, "\n", Ghost(screen), Ghost(t7));
        proof {
            lemma_usable_top(entries@);
        }
        let mut this = FrameAllocator { bitmap: storage, frames: plan.frames, next_hint: 0 };
        say(con, "mm: zeroing ", Ghost(screen), Ghost(t8));
        this.zero();
        say(con, "done\n", Ghost(screen), Ghost(t9));
        say(con, "mm: marking", Ghost(screen), Ghost(t10));
        this.mark_usable(con, entries);
        proof {
            lemma_texts_join(screen, t11, dot_text(all_dots(entries@)));
        }
        say(con, "\n", Ghost(screen), Ghost(t12));
        this.mark_own(bitmap_phys, plan.bitmap_len);
        say(con, "mm: bitmap ready\n", Ghost(screen), Ghost(t13));
        Some(this)
    }

    /// Marks the frames that lie whole in a usable section as free.
    fn mark_usable(&mut self, con: &mut Option<Console>, entries: &[MemmapEntry])
        requires
            ready(*old(con)),
            old(self).shaped(),
            sane(entries@),
            old(self).frames == frames_of(entries@),
            forall|p: int| 0 <= p < old(self).frames ==> !#[trigger] old(self)@.free[p],
        ensures
            final(self).shaped(),
            final(self).frames == old(self).frames,
            final(self).next_hint == old(self).next_hint,
            forall|p: int|
                0 <= p < final(self).frames ==> #[trigger] final(self)@.free[p] == usable_frame(
                    entries@,
                    p,
                ),
            ready(*final(con)),
            screen_of(*final(con)) == after_text(
                screen_of(*old(con)),
                dot_text(all_dots(entries@)),
            ),
    {
        let ghost screen = screen_of(*con);
        let mut i: usize = 0;
        assert(dot_text(0) =~= Seq::empty());
        while i < entries.len()
            invariant
                i <= entries@.len(),
                sane(entries@),
                self.shaped(),
                self.next_hint == old(self).next_hint,
                self.frames == old(self).frames,
                self.frames == frames_of(entries@),
                forall|p: int|
                    0 <= p < self.frames ==> #[trigger] self@.free[p] == usable_frame(
                        entries@.take(i as int),
                        p,
                    ),
                ready(*con),
                screen_of(*con) == after_text(screen, dot_text(all_dots(entries@.take(i as int)))),
            decreases entries@.len() - i,
        {
            let e = entries[i];
            let ghost before = self@;
            let ghost seen = entries@.take(i as int);
            let ghost now = entries@.take(i + 1);
            assert(now.drop_last() =~= seen);
            if e.kind == MEMMAP_USABLE {
                proof {
                    lemma_usable_top(entries@);
                    assert(entries@[i as int].kind == MEMMAP_USABLE);
                }
                let start: u64 = (e.base + (PAGE_SIZE - 1)) / PAGE_SIZE;
                let end: u64 = (e.base + e.length) / PAGE_SIZE;
                self.mark_free(con, start, end);
                proof {
                    let n = all_dots(seen);
                    let d = section_dots(e);
                    lemma_texts_join(screen, dot_text(n), dot_text(d));
                    assert(dot_text(n) + dot_text(d) =~= dot_text(n + d));
                }
            }
            proof {
                lemma_one_more_section(entries@, i as int);
            }
            i = i + 1;
        }
        assert(entries@.take(i as int) =~= entries@);
    }

    /// Marks the frames that the bitmap, `len` bytes at `base`, lies in as used.
    fn mark_own(&mut self, base: u64, len: u64)
        requires
            old(self).shaped(),
        ensures
            final(self).shaped(),
            final(self).frames == old(self).frames,
            final(self).next_hint == old(self).next_hint,
            forall|p: int|
                0 <= p < final(self).frames ==> #[trigger] final(self)@.free[p] == (
                old(self)@.free[p] && !bitmap_frame(base as int, len as int, p)),
    {
        let first: u64 = base / PAGE_SIZE;
        // The bitmap need not start on a page, so that it can reach into one more.
        let rest: u64 = base % PAGE_SIZE + len % PAGE_SIZE;
        let pages: u64 = len / PAGE_SIZE + (rest + (PAGE_SIZE - 1)) / PAGE_SIZE;
        let mut pfn: u64 = first;
        while pfn < first + pages
            invariant
                first <= pfn <= first + pages,
                first + pages <= u64::MAX,
                self.shaped(),
                self.next_hint == old(self).next_hint,
                self.frames == old(self).frames,
                forall|p: int|
                    0 <= p < self.frames ==> #[trigger] self@.free[p] == (old(self)@.free[p] && !(
                    first <= p < pfn)),
            decreases first + pages - pfn,
        {
            if pfn < self.frames {
                self.set_used(pfn);
            }
            pfn = pfn + 1;
        }
    }

    /// Clears the whole bitmap.
    fn zero(&mut self)
        requires
            old(self).frames * PAGE_SIZE <= u64::MAX,
            old(self).bitmap@.len() == (old(self).frames + 7) / 8,
        ensures
            final(self).shaped(),
            final(self).frames == old(self).frames,
            final(self).next_hint == old(self).next_hint,
            forall|p: int| 0 <= p < final(self).frames ==> !#[trigger] final(self)@.free[p],
    {
        let n: usize = self.bitmap.len();
        let mut i: usize = 0;
        while i < n
            invariant
                i <= n,
                n == self.bitmap@.len(),
                n == (self.frames + 7) / 8,
                self.frames == old(self).frames,
                self.next_hint == old(self).next_hint,
                forall|j: int| 0 <= j < i ==> self.bitmap@[j] == 0,
            decreases n - i,
        {
            self.bitmap[i] = 0;
            i = i + 1;
        }
        proof {
            assert forall|p: int| 0 <= p < 8 * self.bitmap@.len() implies !bit(
                #[trigger] self.bitmap@[p / 8],
                (p % 8) as u8,
            ) by {
                lemma_zero_byte((p % 8) as u8);
            }
        }
    }

    /// Marks the frames from `start` up to `end` as free, with a dot for every so
    /// many of them.
    fn mark_free(&mut self, con: &mut Option<Console>, start: u64, end: u64)
        requires
            ready(*old(con)),
            old(self).shaped(),
            end <= old(self).frames,
        ensures
            final(self).shaped(),
            final(self).frames == old(self).frames,
            final(self).next_hint == old(self).next_hint,
            forall|p: int|
                0 <= p < final(self).frames ==> #[trigger] final(self)@.free[p] == (
                old(self)@.free[p] || start <= p < end),
            ready(*final(con)),
            screen_of(*final(con)) == after_text(
                screen_of(*old(con)),
                dot_text(dots(start as int, end as int)),
            ),
    {
        let ghost screen = screen_of(*con);
        let mut pfn: u64 = start;
        assert(dot_text(0) =~= Seq::empty());
        while pfn < end
            invariant
                start <= pfn,
                pfn <= end || pfn == start,
                end <= self.frames,
                self.shaped(),
                self.frames == old(self).frames,
                self.next_hint == old(self).next_hint,
                forall|p: int|
                    0 <= p < self.frames ==> #[trigger] self@.free[p] == (old(self)@.free[p] || start
                        <= p < pfn && p < end),
                ready(*con),
                screen_of(*con) == after_text(screen, dot_text(dots(start as int, pfn as int))),
            decreases end - pfn,
        {
            self.set_free(pfn);
            if pfn % DOT_FRAMES == 0 {
                say_dot(con, Ghost(screen), Ghost(dots(start as int, pfn as int)));
            }
            pfn = pfn + 1;
        }
    }
}

/// Prints a dot behind `n` others.
fn say_dot(
    con: &mut Option<Console>,
    Ghost(screen): Ghost<Option<ConsoleView>>,
    Ghost(n): Ghost<nat>,
)
    requires
        ready(*old(con)),
        screen_of(*old(con)) == after_text(screen, dot_text(n)),
    ensures
        ready(*final(con)),
        screen_of(*final(con)) == after_text(screen, dot_text(n + 1)),
{
    proof {
        reveal_strlit(".");
        vstd::string::is_ascii_spec_bytes(".");
        assert(dot_text(n) + ".".spec_bytes() =~= dot_text(n + 1));
    }
    say(con, ".", Ghost(screen), Ghost(dot_text(n)));
}

/// A frame is usable with one more section if it was before or lies in that one.
proof fn lemma_one_more_section(entries: Seq<MemmapEntry>, i: int)
    requires
        0 <= i < entries.len(),
    ensures
        forall|p: int| #[trigger]
            usable_frame(entries.take(i + 1), p) == (usable_frame(entries.take(i), p) || (
            entries[i].kind == MEMMAP_USABLE && entries[i].base <= p * PAGE_SIZE && (p + 1)
                * PAGE_SIZE <= entries[i].base + entries[i].length)),
{
    let seen = entries.take(i);
    let now = entries.take(i + 1);
    assert forall|p: int| #[trigger]
        usable_frame(now, p) == (usable_frame(seen, p) || (entries[i].kind == MEMMAP_USABLE
            && entries[i].base <= p * PAGE_SIZE && (p + 1) * PAGE_SIZE <= entries[i].base
            + entries[i].length)) by {
        if usable_frame(seen, p) {
            let k = choose|k: int|
                0 <= k < seen.len() && (#[trigger] seen[k]).kind == MEMMAP_USABLE && seen[k].base
                    <= p * PAGE_SIZE && (p + 1) * PAGE_SIZE <= seen[k].base + seen[k].length;
            assert(now[k] == seen[k]);
        }
        if usable_frame(now, p) {
            let k = choose|k: int|
                0 <= k < now.len() && (#[trigger] now[k]).kind == MEMMAP_USABLE && now[k].base <= p
                    * PAGE_SIZE && (p + 1) * PAGE_SIZE <= now[k].base + now[k].length;
            if k < i {
                assert(seen[k] == now[k]);
            }
        }
        assert(now[i] == entries[i]);
    }
}

/// A kept section of the memory map.
#[derive(Clone, Copy)]
pub struct Region {
    pub base: u64,
    pub len: u64,
    pub kind: u64,
}

/// A snapshot of the memory map: which addresses have something behind them.
pub struct RegionMap {
    pub count: usize,
    pub regions: [Region; 128],
}

impl View for RegionMap {
    type V = Seq<Region>;

    open spec fn view(&self) -> Seq<Region> {
        self.regions@.take(self.count as int)
    }
}

/// Whether the `len` bytes from `phys` on lie inside a region.
pub open spec fn covers(r: Region, phys: int, len: int) -> bool {
    r.base <= phys && phys + len <= r.base + r.len
}

/// Whether a kind of region is memory: usable, the two kinds that hold ACPI
/// tables, and what the boot loader used.
pub open spec fn ram_kind(kind: u64) -> bool {
    kind == 0 || kind == 2 || kind == 3 || kind == 5
}

/// Whether the `len` bytes from `phys` on lie inside one region that is memory.
pub open spec fn ram_holds(map: Seq<Region>, phys: int, len: int) -> bool {
    exists|i: int| 0 <= i < map.len() && ram_kind(map[i].kind) && covers(#[trigger] map[i], phys, len)
}

/// Whether the `len` bytes from `phys` on lie inside one region of any kind.
pub open spec fn map_holds(map: Seq<Region>, phys: int, len: int) -> bool {
    exists|i: int| 0 <= i < map.len() && covers(#[trigger] map[i], phys, len)
}

/// What memory holds, the map holds; and of what either holds, every part is
/// held too.
pub proof fn lemma_ram_is_mapped(map: Seq<Region>, phys: int, len: int, off: int, n: int)
    requires
        0 <= off,
        0 <= n,
        off + n <= len,
    ensures
        ram_holds(map, phys, len) ==> map_holds(map, phys, len) && ram_holds(map, phys + off, n),
        map_holds(map, phys, len) ==> map_holds(map, phys + off, n),
{
    if ram_holds(map, phys, len) {
        let i = choose|i: int|
            0 <= i < map.len() && ram_kind(map[i].kind) && covers(#[trigger] map[i], phys, len);
        assert(covers(map[i], phys + off, n));
    }
    if map_holds(map, phys, len) {
        let i = choose|i: int| 0 <= i < map.len() && covers(#[trigger] map[i], phys, len);
        assert(covers(map[i], phys + off, n));
    }
}

impl RegionMap {
    /// The number of kept regions is within bounds.
    pub open spec fn wf(&self) -> bool {
        self.count <= MAX_REGIONS
    }

    /// An empty snapshot.
    pub fn new() -> (map: Self)
        ensures
            map.wf(),
            map@ == Seq::<Region>::empty(),
            map.count == 0,
            map.regions@ == Seq::new(128, |i: int| Region { base: 0, len: 0, kind: 0 }),
    {
        let map = RegionMap { count: 0, regions: [Region { base: 0, len: 0, kind: 0 }; 128] };
        assert(map@ =~= Seq::<Region>::empty());
        assert(map.regions@ =~= Seq::new(128, |i: int| Region { base: 0, len: 0, kind: 0 }));
        map
    }

    /// Takes a new snapshot: the first sections of a map, as many as fit.
    pub fn record(&mut self, entries: &[MemmapEntry])
        ensures
            final(self).wf(),
            final(self)@ == snapshot(entries@),
    {
        self.count = 0;
        let mut i: usize = 0;
        while i < entries.len() && self.count < MAX_REGIONS
            invariant
                i <= entries@.len(),
                self.count == i,
                self.count <= MAX_REGIONS,
                forall|j: int| 0 <= j < i ==> #[trigger] self.regions@[j] == region_of(entries@[j]),
            decreases entries@.len() - i,
        {
            let e = entries[i];
            self.regions[i] = Region { base: e.base, len: e.length, kind: e.kind };
            self.count = i + 1;
            i = i + 1;
        }
        assert(self@ =~= snapshot(entries@));
    }
}

/// A section of the memory map as it is kept.
pub open spec fn region_of(e: MemmapEntry) -> Region {
    Region { base: e.base, len: e.length, kind: e.kind }
}

/// What a snapshot of a memory map keeps.
pub open spec fn snapshot(entries: Seq<MemmapEntry>) -> Seq<Region> {
    Seq::new(
        if entries.len() < MAX_REGIONS {
            entries.len()
        } else {
            MAX_REGIONS as nat
        },
        |i: int| region_of(entries[i]),
    )
}

/// Whether the `len` bytes from `phys` on are memory, so that reading them is
/// safe.
pub fn in_ram(map: &RegionMap, phys: u64, len: u64) -> (held: bool)
    requires
        map.wf(),
    ensures
        held == ram_holds(map@, phys as int, len as int),
{
    let mut i: usize = 0;
    while i < map.count
        invariant
            map.wf(),
            i <= map.count,
            forall|j: int|
                0 <= j < i ==> !(ram_kind(map@[j].kind) && covers(
                    #[trigger] map@[j],
                    phys as int,
                    len as int,
                )),
        decreases map.count - i,
    {
        let r = map.regions[i];
        assert(r == map@[i as int]);
        if (r.kind == 0 || r.kind == 2 || r.kind == 3 || r.kind == 5) && within(&r, phys, len) {
            return true;
        }
        i = i + 1;
    }
    false
}

/// Whether the `len` bytes from `phys` on are anything the map knows of. This
/// says that the address exists, not that reading it is safe.
pub fn in_map(map: &RegionMap, phys: u64, len: u64) -> (held: bool)
    requires
        map.wf(),
    ensures
        held == map_holds(map@, phys as int, len as int),
{
    let mut i: usize = 0;
    while i < map.count
        invariant
            map.wf(),
            i <= map.count,
            forall|j: int| 0 <= j < i ==> !covers(#[trigger] map@[j], phys as int, len as int),
        decreases map.count - i,
    {
        let r = map.regions[i];
        assert(r == map@[i as int]);
        if within(&r, phys, len) {
            return true;
        }
        i = i + 1;
    }
    false
}

/// Whether the `len` bytes from `phys` on lie inside a region.
fn within(r: &Region, phys: u64, len: u64) -> (held: bool)
    ensures
        held == covers(*r, phys as int, len as int),
{
    phys >= r.base && len <= r.len && phys - r.base <= r.len - len
}

/// The state of memory management: where physical memory is mirrored, the
/// snapshot of the memory map, and the allocator once there is one.
pub struct Mm<'a> {
    pub hhdm_offset: u64,
    pub regions: RegionMap,
    pub allocator: Option<FrameAllocator<'a>>,
}

impl<'a> Mm<'a> {
    /// The parts are well-formed.
    pub open spec fn wf(&self) -> bool {
        &&& self.regions.wf()
        &&& self.allocator matches Some(a) ==> a.wf()
    }

    /// Before anything has been set up.
    pub fn new() -> (mm: Self)
        ensures
            mm.wf(),
            mm.hhdm_offset == 0,
            mm.regions@ == Seq::<Region>::empty(),
            mm.allocator is None,
    {
        Mm { hhdm_offset: 0, regions: RegionMap::new(), allocator: None }
    }
}

/// Sets memory management up from the loader's answers and the storage for the
/// bitmap. False means that no section can take the bitmap in; the snapshot is
/// taken all the same.
pub fn init<'a>(
    mm: &mut Mm<'a>,
    resp: &MemmapResponse,
    hhdm_offset: u64,
    storage: &'a mut [u8],
) -> (up: bool)
    requires
        old(mm).wf(),
        sane(resp.entries@),
        home_of(resp.entries@) is Some ==> old(storage)@.len() == bitmap_bytes(
            frames_of(resp.entries@),
        ),
    ensures
        final(mm).wf(),
        final(mm).hhdm_offset == hhdm_offset,
        final(mm).regions@ == snapshot(resp.entries@),
        up == (home_of(resp.entries@) is Some),
        !up ==> final(mm).allocator == old(mm).allocator,
        up ==> final(mm).allocator is Some && built_for(final(mm).allocator->0, resp.entries@),
{
    let mut unseen: Option<Console> = None;
    init_shown(&mut unseen, mm, resp, hhdm_offset, storage)
}

/// Sets memory management up and says on the screen how far it has come.
pub(crate) fn init_shown<'a>(
    con: &mut Option<Console>,
    mm: &mut Mm<'a>,
    resp: &MemmapResponse,
    hhdm_offset: u64,
    storage: &'a mut [u8],
) -> (up: bool)
    requires
        ready(*old(con)),
        old(mm).wf(),
        sane(resp.entries@),
        home_of(resp.entries@) is Some ==> old(storage)@.len() == bitmap_bytes(
            frames_of(resp.entries@),
        ),
    ensures
        final(mm).wf(),
        final(mm).hhdm_offset == hhdm_offset,
        final(mm).regions@ == snapshot(resp.entries@),
        up == (home_of(resp.entries@) is Some),
        !up ==> final(mm).allocator == old(mm).allocator,
        up ==> final(mm).allocator is Some && built_for(final(mm).allocator->0, resp.entries@),
        ready(*final(con)),
        screen_of(*final(con)) == after_text(screen_of(*old(con)), bitmap_text(resp.entries@)),
{
    mm.hhdm_offset = hhdm_offset;
    mm.regions.record(resp.entries());
    match FrameAllocator::from_memmap_shown(con, resp, storage) {
        Some(a) => {
            mm.allocator = Some(a);
            true
        },
        None => false,
    }
}

/// Where the mirror of a physical address lies.
pub fn phys_to_virt(mm: &Mm, p: u64) -> (virt: u64)
    requires
        p + mm.hhdm_offset <= u64::MAX,
    ensures
        virt == p + mm.hhdm_offset,
{
    p + mm.hhdm_offset
}

/// How many frames there are and how many of them are free; zero before there is
/// an allocator.
pub fn stats(mm: &Mm) -> (counts: (u64, u64))
    requires
        mm.wf(),
    ensures
        match mm.allocator {
            Some(a) => counts.0 == a.frames && counts.1 == free_count(a@.free),
            None => counts == (0u64, 0u64),
        },
{
    match &mm.allocator {
        Some(a) => (a.frames, a.count_free()),
        None => (0, 0),
    }
}

/// The allocator as a value, once there is one.
pub open spec fn frames_now(mm: Mm) -> Option<FrameView> {
    match mm.allocator {
        Some(a) => Some(a@),
        None => None,
    }
}

/// All but the allocator's bookkeeping is as it was.
pub open spec fn same_machine(a: Mm, b: Mm) -> bool {
    &&& a.hhdm_offset == b.hhdm_offset
    &&& a.regions == b.regions
    &&& a.allocator is Some <==> b.allocator is Some
    &&& a.allocator is Some ==> a.allocator->0.frames == b.allocator->0.frames
}

/// Hands out a frame: the lowest free one. `None` means that there is no
/// allocator or no frame is free.
pub fn alloc_frame(mm: &mut Mm) -> (frame: Option<u64>)
    requires
        old(mm).wf(),
    ensures
        final(mm).wf(),
        same_machine(*final(mm), *old(mm)),
        match frames_now(*old(mm)) {
            Some(v) => {
                &&& frames_now(*final(mm)) == Some(v.taken())
                &&& match v.next() {
                    Some(p) => frame == Some((p * PAGE_SIZE) as u64) && p * PAGE_SIZE <= u64::MAX,
                    None => frame is None,
                }
            },
            None => frame is None,
        },
{
    match &mut mm.allocator {
        Some(a) => a.take_lowest(),
        None => None,
    }
}

/// Hands out `pages` frames in a row: the first run that is long enough.
pub fn alloc_frame_contig(mm: &mut Mm, pages: u64) -> (frame: Option<u64>)
    requires
        old(mm).wf(),
    ensures
        final(mm).wf(),
        same_machine(*final(mm), *old(mm)),
        match (frames_now(*old(mm)), frame) {
            (Some(v), Some(phys)) => {
                let start = phys as int / PAGE_SIZE as int;
                &&& phys == start * PAGE_SIZE
                &&& 1 <= pages
                &&& run_at(v.free, start, pages as int)
                &&& forall|s: int| 0 <= s < start ==> !run_at(v.free, s, pages as int)
                &&& frames_now(*final(mm)) == Some(v.without_run(start, pages as int))
            },
            (Some(v), None) => {
                &&& frames_now(*final(mm)) == Some(v)
                &&& pages == 0 || forall|s: int| !run_at(v.free, s, pages as int)
            },
            (None, _) => frame is None,
        },
{
    match &mut mm.allocator {
        Some(a) => a.take_run(pages),
        None => None,
    }
}

/// Takes a frame back, given its address.
pub fn free_frame(mm: &mut Mm, phys: u64)
    requires
        old(mm).wf(),
        old(mm).allocator matches Some(a) ==> phys / PAGE_SIZE < a.frames,
    ensures
        final(mm).wf(),
        same_machine(*final(mm), *old(mm)),
        match frames_now(*old(mm)) {
            Some(v) => frames_now(*final(mm)) == Some(v.returned(phys as int / PAGE_SIZE as int)),
            None => true,
        },
{
    if let Some(a) = &mut mm.allocator {
        a.give_back(phys / PAGE_SIZE);
    }
}

/// A frame that was handed out and comes back leaves the same frames free as
/// before.
pub proof fn lemma_give_back_undoes(v: FrameView)
    requires
        v.next() is Some,
    ensures
        v.taken().returned(v.next()->0).free == v.free,
{
    lemma_lowest_free(v.free, 0);
    assert(v.taken().returned(v.next()->0).free =~= v.free);
}

/// Frames handed out one after the other rise, so none is handed out twice.
pub proof fn lemma_frames_rise(v: FrameView)
    requires
        v.next() is Some,
        v.taken().next() is Some,
    ensures
        v.next()->0 < v.taken().next()->0,
        !v.taken().free[v.next()->0],
{
    lemma_lowest_free(v.free, 0);
    lemma_lowest_free(v.taken().free, 0);
}

/// A frame in use stays in use, and is not handed out again, until it is itself
/// given back.
pub proof fn lemma_used_frame_stays_used(v: FrameView, p: int, q: int, start: int, n: int)
    requires
        0 <= p < v.free.len(),
        !v.free[p],
        q != p,
    ensures
        v.next() != Some(p),
        !v.taken().free[p],
        !v.without_run(start, n).free[p],
        n >= 1 && run_at(v.free, start, n) ==> !(start <= p < start + n),
        0 <= q < v.free.len() ==> !v.returned(q).free[p],
{
    lemma_lowest_free(v.free, 0);
}

/// Of three frames handed out in a row the second comes back and is the next to
/// be handed out again.
pub proof fn lemma_returned_frame_comes_next(v: FrameView)
    requires
        v.next() is Some,
        v.taken().next() is Some,
        v.taken().taken().next() is Some,
    ensures
        v.taken().taken().taken().returned(v.taken().next()->0).next() == v.taken().next(),
{
    let v1 = v.taken();
    let v2 = v1.taken();
    let v3 = v2.taken();
    let p2 = v1.next()->0;
    lemma_frames_rise(v);
    lemma_frames_rise(v1);
    lemma_lowest_free(v.free, 0);
    lemma_lowest_free(v1.free, 0);
    lemma_lowest_free(v2.free, 0);
    lemma_is_lowest(v3.returned(p2).free, 0, p2);
}

/// Handing a frame out lowers the number of free frames by one; taking a used one
/// back raises it by one.
pub proof fn lemma_counts_move_by_one(v: FrameView, p: int)
    requires
        0 <= p < v.free.len(),
    ensures
        v.next() is Some ==> free_count(v.taken().free) + 1 == free_count(v.free),
        v.next() is None ==> free_count(v.taken().free) == free_count(v.free),
        !v.free[p] ==> free_count(v.returned(p).free) == free_count(v.free) + 1,
{
    lemma_lowest_free(v.free, 0);
    if v.next() is Some {
        lemma_count_update(v.free, v.next()->0, false);
    }
    lemma_count_update(v.free, p, true);
}

/// The allocator runs dry exactly when it counts no free frame.
pub proof fn lemma_dry_means_none_free(v: FrameView)
    ensures
        v.next() is None <==> free_count(v.free) == 0,
{
    lemma_lowest_free(v.free, 0);
    if v.next() is Some {
        lemma_count_update(v.free, v.next()->0, false);
    } else {
        lemma_count_none(v.free);
    }
}

/// Where no frame is free, none is counted.
proof fn lemma_count_none(free: Seq<bool>)
    requires
        forall|p: int| 0 <= p < free.len() ==> !free[p],
    ensures
        free_count(free) == 0,
    decreases free.len(),
{
    if free.len() > 0 {
        lemma_count_none(free.drop_last());
    }
}

/// A new allocator never hands itself out: no frame that holds a byte of the bitmap
/// is free.
pub proof fn lemma_bitmap_keeps_itself(a: FrameAllocator, entries: Seq<MemmapEntry>, p: int)
    requires
        built_for(a, entries),
        home_of(entries) is Some,
        0 <= p < a.frames,
        home_of(entries)->0 < (p + 1) * PAGE_SIZE,
        p * PAGE_SIZE < home_of(entries)->0 + bitmap_bytes(a.frames as int),
    ensures
        !a@.free[p],
{
}

/// Where usable memory ends: no usable section reaches further, and, unless there is
/// none, one of them ends just there.
pub proof fn lemma_top_is_attained(entries: Seq<MemmapEntry>)
    ensures
        forall|i: int|
            0 <= i < entries.len() && (#[trigger] entries[i]).kind == 0 ==> entries[i].base
                + entries[i].length <= usable_top(entries),
        usable_top(entries) == 0 || exists|i: int|
            0 <= i < entries.len() && (#[trigger] entries[i]).kind == 0 && entries[i].base
                + entries[i].length == usable_top(entries),
        0 <= usable_top(entries),
    decreases entries.len(),
{
    if entries.len() > 0 {
        let rest = entries.drop_last();
        lemma_top_is_attained(rest);
        let last = entries.len() - 1;
        assert(entries[last] == entries.last());
        assert forall|i: int|
            0 <= i < entries.len() && (#[trigger] entries[i]).kind == 0 implies entries[i].base
            + entries[i].length <= usable_top(entries) by {
            if i < last {
                assert(rest[i] == entries[i]);
            }
        }
        if usable_top(rest) != 0 {
            let k = choose|k: int|
                0 <= k < rest.len() && (#[trigger] rest[k]).kind == 0 && rest[k].base
                    + rest[k].length == usable_top(rest);
            assert(entries[k] == rest[k]);
        }
    }
}

/// Sections that are not usable never count: without one of them usable memory ends
/// where it ended, there are as many frames, and the bitmap goes where it went.
pub proof fn lemma_other_sections_do_not_count(entries: Seq<MemmapEntry>, k: int)
    requires
        0 <= k < entries.len(),
        entries[k].kind != 0,
    ensures
        usable_top(entries.remove(k)) == usable_top(entries),
        frames_of(entries.remove(k)) == frames_of(entries),
        home_of(entries.remove(k)) == home_of(entries),
        forall|p: int| usable_frame(entries.remove(k), p) == usable_frame(entries, p),
{
    let fewer = entries.remove(k);
    lemma_top_is_attained(entries);
    lemma_top_is_attained(fewer);
    if usable_top(entries) != 0 {
        let i = choose|i: int|
            0 <= i < entries.len() && (#[trigger] entries[i]).kind == 0 && entries[i].base
                + entries[i].length == usable_top(entries);
        let j = if i < k {
            i
        } else {
            i - 1
        };
        assert(fewer[j] == entries[i]);
    }
    if usable_top(fewer) != 0 {
        let j = choose|j: int|
            0 <= j < fewer.len() && (#[trigger] fewer[j]).kind == 0 && fewer[j].base
                + fewer[j].length == usable_top(fewer);
        let i = if j < k {
            j
        } else {
            j + 1
        };
        assert(fewer[j] == entries[i]);
    }
    let len = bitmap_bytes(frames_of(entries));
    lemma_host_skips(entries, k, len);
    assert forall|p: int| usable_frame(fewer, p) == usable_frame(entries, p) by {
        if usable_frame(entries, p) {
            let i = choose|i: int|
                0 <= i < entries.len() && (#[trigger] entries[i]).kind == MEMMAP_USABLE
                    && entries[i].base <= p * PAGE_SIZE && (p + 1) * PAGE_SIZE <= entries[i].base
                    + entries[i].length;
            let j = if i < k {
                i
            } else {
                i - 1
            };
            assert(fewer[j] == entries[i]);
        }
        if usable_frame(fewer, p) {
            let j = choose|j: int|
                0 <= j < fewer.len() && (#[trigger] fewer[j]).kind == MEMMAP_USABLE
                    && fewer[j].base <= p * PAGE_SIZE && (p + 1) * PAGE_SIZE <= fewer[j].base
                    + fewer[j].length;
            let i = if j < k {
                j
            } else {
                j + 1
            };
            assert(fewer[j] == entries[i]);
        }
    }
}

/// A section that is not usable is passed over in the search for a host.
proof fn lemma_host_skips(entries: Seq<MemmapEntry>, k: int, len: int)
    requires
        0 <= k < entries.len(),
        entries[k].kind != 0,
    ensures
        bitmap_host(entries.remove(k), len) == bitmap_host(entries, len),
    decreases entries.len(),
{
    if k == entries.len() - 1 {
        assert(entries.remove(k) =~= entries.drop_last());
    } else {
        lemma_host_skips(entries.drop_last(), k, len);
        assert(entries.remove(k).drop_last() =~= entries.drop_last().remove(k));
        assert(entries.remove(k).last() == entries.last());
    }
}

/// How many frames and how long a bitmap usable memory makes: whole pages up to its
/// end, and just enough bytes for a bit each.
pub proof fn lemma_frames_and_bitmap_size(entries: Seq<MemmapEntry>)
    ensures
        4096 * frames_of(entries) <= usable_top(entries) < 4096 * (frames_of(entries) + 1),
        frames_of(entries) <= 8 * bitmap_bytes(frames_of(entries)) < frames_of(entries) + 8,
{
    lemma_top_is_attained(entries);
}

/// Where the bitmap goes: into a usable section that starts at one mebibyte or above
/// and is long enough, the first such section; and nowhere exactly if there is none.
pub proof fn lemma_home_of_the_bitmap(entries: Seq<MemmapEntry>)
    ensures
        home_of(entries) matches Some(base) ==> exists|i: int|
            0 <= i < entries.len() && (#[trigger] entries[i]).base == base && entries[i].kind == 0
                && entries[i].base >= 0x10_0000 && 8 * entries[i].length >= frames_of(entries)
                && forall|j: int|
                0 <= j < i ==> (#[trigger] entries[j]).kind != 0 || entries[j].base < 0x10_0000 || 8
                    * entries[j].length < frames_of(entries),
        home_of(entries) is None ==> forall|j: int|
            0 <= j < entries.len() ==> (#[trigger] entries[j]).kind != 0 || entries[j].base
                < 0x10_0000 || 8 * entries[j].length < frames_of(entries),
{
    let len = bitmap_bytes(frames_of(entries));
    lemma_bitmap_host(entries, len);
    if home_of(entries) is Some {
        let i = choose|i: int|
            0 <= i < entries.len() && can_host(#[trigger] entries[i], len) && entries[i].base
                == home_of(entries)->0 && forall|j: int|
                0 <= j < i ==> !can_host(#[trigger] entries[j], len);
        assert(entries[i].base == home_of(entries)->0);
        assert forall|j: int| 0 <= j < i implies (#[trigger] entries[j]).kind != 0
            || entries[j].base < 0x10_0000 || 8 * entries[j].length < frames_of(entries) by {
            assert(!can_host(entries[j], len));
        }
    } else {
        assert forall|j: int| 0 <= j < entries.len() implies (#[trigger] entries[j]).kind != 0
            || entries[j].base < 0x10_0000 || 8 * entries[j].length < frames_of(entries) by {
            assert(!can_host(entries[j], len));
        }
    }
}

/// A frame of a new allocator is free exactly if all its bytes lie in one usable
/// section and none of them belongs to the bitmap.
pub proof fn lemma_free_at_the_start(a: FrameAllocator, entries: Seq<MemmapEntry>, p: int)
    requires
        built_for(a, entries),
        home_of(entries) is Some,
        0 <= p < a.frames,
    ensures
        a.frames == frames_of(entries),
        a@.free[p] ==> exists|i: int|
            0 <= i < entries.len() && (#[trigger] entries[i]).kind == 0 && entries[i].base <= 4096
                * p && 4096 * (p + 1) <= entries[i].base + entries[i].length,
        a@.free[p] ==> 4096 * (p + 1) <= home_of(entries)->0 || home_of(entries)->0
            + bitmap_bytes(frames_of(entries)) <= 4096 * p,
        !a@.free[p] ==> (forall|i: int|
            0 <= i < entries.len() && (#[trigger] entries[i]).kind == 0 ==> !(entries[i].base <= 4096
                * p && 4096 * (p + 1) <= entries[i].base + entries[i].length)) || (4096 * (p + 1)
            > home_of(entries)->0 && 4096 * p < home_of(entries)->0 + bitmap_bytes(
            frames_of(entries),
        )),
{
    if a@.free[p] {
        let i = choose|i: int|
            0 <= i < entries.len() && (#[trigger] entries[i]).kind == MEMMAP_USABLE
                && entries[i].base <= p * PAGE_SIZE && (p + 1) * PAGE_SIZE <= entries[i].base
                + entries[i].length;
        assert(entries[i].kind == 0);
    }
}

/// Handing out a frame takes the lowest free one and leaves all others as they were;
/// giving one back frees that one and leaves all others as they were.
pub proof fn lemma_one_frame_moves(v: FrameView, p: int, q: int)
    requires
        0 <= p < v.free.len(),
        0 <= q < v.free.len(),
    ensures
        v.next() matches Some(n) ==> 0 <= n < v.free.len() && v.free[n] && !v.taken().free[n],
        v.next() matches Some(n) ==> forall|k: int| 0 <= k < n ==> !v.free[k],
        v.next() != Some(q) ==> v.taken().free[q] == v.free[q],
        v.next() is None ==> !v.free[q],
        v.taken().free.len() == v.free.len(),
        v.returned(p).free[p],
        q != p ==> v.returned(p).free[q] == v.free[q],
        v.returned(p).free.len() == v.free.len(),
{
    lemma_lowest_free(v.free, 0);
}

/// A run is so many frames that exist and are free, and handing it out takes just
/// those.
pub proof fn lemma_run_of_frames(v: FrameView, start: int, n: int, q: int)
    requires
        0 <= start,
        0 <= n,
        0 <= q < v.free.len(),
    ensures
        run_at(v.free, start, n) ==> start + n <= v.free.len() && (start <= q < start + n
            ==> v.free[q]),
        !run_at(v.free, start, n) ==> start + n > v.free.len() || exists|p: int|
            start <= p < start + n && !#[trigger] v.free[p],
        start <= q < start + n ==> !v.without_run(start, n).free[q],
        !(start <= q < start + n) ==> v.without_run(start, n).free[q] == v.free[q],
        v.without_run(start, n).free.len() == v.free.len(),
{
}

/// How many frames are free: one more for each that is.
pub proof fn lemma_free_frames_add_up(a: Seq<bool>, b: Seq<bool>)
    ensures
        free_count(a + b) == free_count(a) + free_count(b),
        free_count(seq![true]) == 1,
        free_count(seq![false]) == 0,
    decreases b.len(),
{
    reveal_with_fuel(free_count, 2);
    assert(seq![true].drop_last() =~= Seq::<bool>::empty());
    assert(seq![false].drop_last() =~= Seq::<bool>::empty());
    if b.len() == 0 {
        assert(a + b =~= a);
    } else {
        lemma_free_frames_add_up(a, b.drop_last());
        assert((a + b).drop_last() =~= a + b.drop_last());
    }
}

/// What the map vouches for: a range lies in it exactly if one region holds the
/// range from its first byte to its last; and it counts as memory exactly if that
/// region is usable, holds ACPI tables, or was the boot loader's.
pub proof fn lemma_what_the_map_vouches_for(map: Seq<Region>, phys: int, len: int, k: int)
    requires
        0 <= k < map.len(),
    ensures
        map[k].base <= phys && phys + len <= map[k].base + map[k].len ==> map_holds(map, phys, len),
        map[k].base <= phys && phys + len <= map[k].base + map[k].len && (map[k].kind == 0
            || map[k].kind == 2 || map[k].kind == 3 || map[k].kind == 5) ==> ram_holds(
            map,
            phys,
            len,
        ),
        map_holds(map, phys, len) ==> exists|i: int|
            0 <= i < map.len() && (#[trigger] map[i]).base <= phys && phys + len <= map[i].base
                + map[i].len,
        ram_holds(map, phys, len) ==> exists|i: int|
            0 <= i < map.len() && (#[trigger] map[i]).base <= phys && phys + len <= map[i].base
                + map[i].len && (map[i].kind == 0 || map[i].kind == 2 || map[i].kind == 3
                || map[i].kind == 5),
{
    assert(covers(map[k], phys, len) <==> map[k].base <= phys && phys + len <= map[k].base
        + map[k].len);
}

/// The snapshot keeps the sections in order, the first 128 of them.
pub proof fn lemma_snapshot_keeps_sections(entries: Seq<MemmapEntry>, i: int)
    ensures
        entries.len() <= 128 ==> snapshot(entries).len() == entries.len(),
        entries.len() > 128 ==> snapshot(entries).len() == 128,
        0 <= i < snapshot(entries).len() ==> snapshot(entries)[i].base == entries[i].base
            && snapshot(entries)[i].len == entries[i].length && snapshot(entries)[i].kind
            == entries[i].kind,
{
}

/// One dot is earned by every frame whose number is a multiple of 0x40000, so that
/// a run of so many frames in a row earns exactly one.
pub proof fn lemma_dots_are_evenly_spaced(start: int, mid: int, end: int)
    requires
        start <= mid <= end,
    ensures
        dots(start, end) == dots(start, mid) + dots(mid, end),
        dots(start, start + 1) == if start % 0x4_0000 == 0 {
            1int
        } else {
            0
        },
    decreases end - mid,
{
    reveal_with_fuel(dots, 2);
    if mid < end {
        lemma_dots_are_evenly_spaced(start, mid, end - 1);
    }
}

/// What is said of the bitmap gives the end of usable memory, the bitmap's length
/// and its place in full, and a dot for every dot earned in any section.
pub proof fn lemma_bitmap_report(entries: Seq<MemmapEntry>, e: MemmapEntry)
    ensures
        home_of(entries) is None ==> bitmap_text(entries) == "mm: top=".spec_bytes() + hex_text(
            usable_top(entries) as nat,
        ) + " bitmap=".spec_bytes() + hex_text(bitmap_bytes(frames_of(entries)) as nat)
            + "\n".spec_bytes(),
        home_of(entries) matches Some(at) ==> bitmap_text(entries) == "mm: top=".spec_bytes()
            + hex_text(usable_top(entries) as nat) + " bitmap=".spec_bytes() + hex_text(
            bitmap_bytes(frames_of(entries)) as nat,
        ) + "\n".spec_bytes() + "mm: bitmap at ".spec_bytes() + hex_text(at as nat)
            + "\n".spec_bytes() + "mm: zeroing ".spec_bytes() + "done\n".spec_bytes()
            + "mm: marking".spec_bytes() + dot_text(all_dots(entries)) + "\n".spec_bytes()
            + "mm: bitmap ready\n".spec_bytes(),
        all_dots(entries.push(e)) == all_dots(entries) + if e.kind == 0 {
            dots((e.base + 4095) / 4096, (e.base + e.length) / 4096)
        } else {
            0
        },
        all_dots(Seq::empty()) == 0,
        dot_text(all_dots(entries)).len() == all_dots(entries),
        forall|i: int| 0 <= i < all_dots(entries) ==> #[trigger] dot_text(all_dots(entries))[i]
            == '.' as u8,
{
    assert(entries.push(e).drop_last() =~= entries);
}

/// Frame `p` is free exactly if bit p % 8 of byte p / 8 of the bitmap is set.
pub proof fn lemma_bitmap_bits(a: FrameAllocator, bytes: Seq<u8>, p: int)
    requires
        0 <= p < a.frames,
        a.bitmap@ == bytes,
    ensures
        a@.free.len() == a.frames,
        a@.free[p] == bit(bytes[p / 8], (p % 8) as u8),
        a@.hint == a.next_hint,
{
}

/// The cursor stands on the frame handed out last, or lower if a lower one has come
/// back.
pub proof fn lemma_cursor(v: FrameView, p: int)
    ensures
        v.next() matches Some(n) ==> v.taken().hint == n,
        v.next() is None ==> v.taken() == v,
        p <= v.hint ==> v.returned(p).hint == p,
        p >= v.hint ==> v.returned(p).hint == v.hint,
{
}

/// Which maps are sane: all but those where a usable section ends past the last
/// address or starts within the last 4095 bytes.
pub proof fn lemma_sane_maps(entries: Seq<MemmapEntry>)
    ensures
        sane(entries) <==> forall|i: int|
            0 <= i < entries.len() && (#[trigger] entries[i]).kind == 0 ==> entries[i].base
                + entries[i].length < 0x1_0000_0000_0000_0000 && entries[i].base + 4095
                < 0x1_0000_0000_0000_0000,
{
    if sane(entries) {
        assert forall|i: int| 0 <= i < entries.len() && (#[trigger] entries[i]).kind == 0 implies
            entries[i].base + entries[i].length < 0x1_0000_0000_0000_0000 && entries[i].base + 4095
            < 0x1_0000_0000_0000_0000 by {
            assert(entries[i].kind == MEMMAP_USABLE);
        }
    }
}

} // verus!
