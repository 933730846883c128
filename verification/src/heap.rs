//! The kernel heap, first version: a bump allocator. The cursor only moves up;
//! giving memory back does nothing.

use crate::mm::{alloc_frame, phys_to_virt, Mm, PAGE_SIZE};
#[allow(unused_imports)]
use crate::mm::{frames_now, lemma_lowest_free, run_at, same_machine, FrameView};
use vstd::prelude::*;

verus! {

/// The heap: its lowest address (zero before it is built), its size in bytes, and
/// how many of them are used up.
pub struct Heap {
    pub start: u64,
    pub size: u64,
    pub top: u64,
}

impl Heap {
    /// The heap ends inside the address space and the cursor inside the heap.
    pub open spec fn wf(&self) -> bool {
        &&& self.start + self.size <= u64::MAX
        &&& self.top <= self.size
    }

    /// A heap that has not been built.
    pub fn new() -> (heap: Self)
        ensures
            heap.wf(),
            heap.start == 0,
            heap.size == 0,
            heap.top == 0,
    {
        Heap { start: 0, size: 0, top: 0 }
    }

    /// A fresh heap over `size` bytes from `start` on.
    pub fn over(start: u64, size: u64) -> (heap: Self)
        requires
            start + size <= u64::MAX,
        ensures
            heap.wf(),
            heap.start == start,
            heap.size == size,
            heap.top == 0,
    {
        Heap { start, size, top: 0 }
    }
}

/// The allocator after `n` frames have been handed out.
pub open spec fn taken_times(v: FrameView, n: nat) -> FrameView
    decreases n,
{
    if n == 0 {
        v
    } else {
        taken_times(v, (n - 1) as nat).taken()
    }
}

/// The frame that allocation number `i`, counted from zero, hands out.
pub open spec fn nth_frame(v: FrameView, i: nat) -> Option<int> {
    taken_times(v, i).next()
}

/// Whether the next `n` allocations hand out frames that follow each other.
pub open spec fn in_row(v: FrameView, n: nat) -> bool {
    forall|i: nat| i < n ==> #[trigger] nth_frame(v, i) == first_plus(v, i as int)
}

/// The frame `i` places after the one handed out next.
pub open spec fn first_plus(v: FrameView, i: int) -> Option<int> {
    match v.next() {
        Some(p) => Some(p + i),
        None => None,
    }
}

/// Whether the next `n` allocations succeed and hand out frames that follow each
/// other.
pub open spec fn gives_run(v: Option<FrameView>, n: nat) -> bool {
    n == 0 || match v {
        Some(v) => v.next() is Some && in_row(v, n),
        None => false,
    }
}

/// The address of the frame that is handed out next, zero if nothing is asked
/// for.
pub open spec fn base_of(v: Option<FrameView>, n: nat) -> int {
    match v {
        Some(v) => if n > 0 && v.next() is Some {
            v.next()->0 * PAGE_SIZE
        } else {
            0
        },
        None => 0,
    }
}

/// Taking frames does not change how many there are.
proof fn lemma_taken_len(v: FrameView, n: nat)
    ensures
        taken_times(v, n).free.len() == v.free.len(),
    decreases n,
{
    if n > 0 {
        lemma_taken_len(v, (n - 1) as nat);
        lemma_lowest_free(taken_times(v, (n - 1) as nat).free, 0);
    }
}

/// Builds the heap from `pages` frames taken one after the other. False means
/// that frames ran out or did not follow each other; those taken stay taken.
pub fn init(heap: &mut Heap, mm: &mut Mm, pages: u64) -> (up: bool)
    requires
        old(mm).wf(),
        gives_run(frames_now(*old(mm)), pages as nat) ==> base_of(
            frames_now(*old(mm)),
            pages as nat,
        ) + old(mm).hhdm_offset + pages * PAGE_SIZE <= u64::MAX,
    ensures
        final(mm).wf(),
        same_machine(*final(mm), *old(mm)),
        up == gives_run(frames_now(*old(mm)), pages as nat),
        up ==> {
            &&& final(heap).wf()
            &&& final(heap).start == base_of(frames_now(*old(mm)), pages as nat) + old(mm).hhdm_offset
            &&& final(heap).size == pages * PAGE_SIZE
            &&& final(heap).top == 0
            &&& frames_now(*old(mm)) matches Some(v) ==> frames_now(*final(mm)) == Some(
                taken_times(v, pages as nat),
            )
        },
        !up ==> {
            &&& *final(heap) == *old(heap)
            &&& frames_now(*old(mm)) matches Some(v) ==> exists|i: nat|
                i < pages && gives_run(Some(v), i) && !gives_run(Some(v), i + 1) && frames_now(
                    *final(mm),
                ) == Some(#[trigger] taken_times(v, i + 1))
        },
{
    let ghost now = frames_now(*mm);
    let ghost v = now->0;
    let mut first: u64 = 0;
    let mut i: u64 = 0;
    while i < pages
        invariant
            mm.wf(),
            same_machine(*mm, *old(mm)),
            now == frames_now(*old(mm)),
            now is Some ==> v == now->0,
            i <= pages,
            gives_run(now, i as nat),
            now is Some ==> frames_now(*mm) == Some(taken_times(v, i as nat)),
            first == base_of(now, i as nat),
            *heap == *old(heap),
        decreases pages - i,
    {
        proof {
            if now is Some {
                lemma_taken_len(v, i as nat);
                lemma_lowest_free(taken_times(v, i as nat).free, 0);
                assert(taken_times(v, (i + 1) as nat) == taken_times(v, i as nat).taken());
                if i > 0 {
                    assert(nth_frame(v, (i - 1) as nat) == first_plus(v, i - 1));
                    lemma_taken_len(v, (i - 1) as nat);
                    lemma_lowest_free(taken_times(v, (i - 1) as nat).free, 0);
                    assert(v.free.len() == old(mm).allocator->0.frames);
                    assert(v.next()->0 + i - 1 < v.free.len());
                }
            }
        }
        match alloc_frame(mm) {
            Some(p) => {
                if i == 0 {
                    first = p;
                } else if p != first + i * PAGE_SIZE {
                    assert(nth_frame(v, i as nat) != first_plus(v, i as int));
                    return false;
                }
                assert(nth_frame(v, i as nat) == first_plus(v, i as int));
            },
            None => {
                proof {
                    if now is Some {
                        assert(nth_frame(v, i as nat) is None);
                    }
                }
                return false;
            },
        }
        i = i + 1;
    }
    proof {
        if pages > 0 {
            assert(nth_frame(v, (pages - 1) as nat) == first_plus(v, pages - 1));
            lemma_taken_len(v, (pages - 1) as nat);
            lemma_lowest_free(taken_times(v, (pages - 1) as nat).free, 0);
        }
    }
    *heap = Heap::over(phys_to_virt(mm, first), pages * PAGE_SIZE);
    true
}

/// The lowest multiple of `align` that is not below an address.
pub open spec fn align_up(at: int, align: int) -> int {
    (at + align - 1) / align * align
}

/// The cursor after padding for an allocation: the address it stands for is a
/// multiple of the alignment.
pub open spec fn padded(heap: Heap, align: u64) -> int {
    align_up(heap.start + heap.top, align as int) - heap.start
}

/// Whether the heap is there and has room for a block.
pub open spec fn has_room(heap: Heap, len: u64, align: u64) -> bool {
    heap.start != 0 && padded(heap, align) + len <= heap.size
}

/// The heap after a block was asked for; without room nothing changes.
pub open spec fn after(heap: Heap, len: u64, align: u64) -> Heap {
    if has_room(heap, len, align) {
        Heap { top: (padded(heap, align) + len) as u64, ..heap }
    } else {
        heap
    }
}

/// Takes `len` bytes from the heap, the cursor first raised to an address that is a
/// multiple of `align`. `None` means that there is no heap or too little is left of
/// it.
pub fn allocate(heap: &mut Heap, len: u64, align: u64) -> (block: Option<u64>)
    requires
        old(heap).wf(),
        0 < align,
    ensures
        final(heap).wf(),
        block is Some <==> has_room(*old(heap), len, align),
        block is Some ==> block->0 == old(heap).start + padded(*old(heap), align),
        block is Some ==> block->0 % align == 0,
        *final(heap) == after(*old(heap), len, align),
{
    if heap.start == 0 {
        return None;
    }
    let over: u64 = (heap.start + heap.top) % align;
    let pad: u64 = if over == 0 {
        0
    } else {
        align - over
    };
    proof {
        lemma_pad(heap.start + heap.top, align as int);
        lemma_block_is_aligned(*heap, align);
    }
    let top: u64 = match heap.top.checked_add(pad) {
        Some(top) => top,
        None => {
            return None;
        },
    };
    match top.checked_add(len) {
        Some(end) => {
            if end > heap.size {
                return None;
            }
            heap.top = end;
            Some(heap.start + top)
        },
        None => None,
    }
}

/// Padding by what is missing to the next multiple reaches it.
proof fn lemma_pad(top: int, align: int)
    requires
        0 <= top,
        0 < align,
    ensures
        align_up(top, align) == top + if top % align == 0 {
            0
        } else {
            align - top % align
        },
{
    let q = top / align;
    let r = top % align;
    vstd::arithmetic::div_mod::lemma_fundamental_div_mod(top, align);
    vstd::arithmetic::div_mod::lemma_mod_bound(top, align);
    if r == 0 {
        vstd::arithmetic::div_mod::lemma_fundamental_div_mod_converse(
            top + align - 1,
            align,
            q,
            align - 1,
        );
    } else {
        assert(align * (q + 1) == align * q + align) by (nonlinear_arith);
        vstd::arithmetic::div_mod::lemma_fundamental_div_mod_converse(
            top + align - 1,
            align,
            q + 1,
            r - 1,
        );
    }
    assert((q + 1) * align == align * q + align) by (nonlinear_arith);
    assert(q * align == align * q) by (nonlinear_arith);
}

/// Gives memory back, which a bump allocator ignores.
pub fn dealloc(heap: &mut Heap, _block: u64)
    ensures
        *final(heap) == *old(heap),
{
}

/// How many pages the heap gets: room for a picture of the whole screen and two
/// mebibytes more, or a fixed number without a screen.
pub fn pages_for(canvas_size: usize) -> (pages: u64)
    ensures
        canvas_size > 0 ==> pages == canvas_size as int / 4096 + 512 && canvas_size < pages
            * PAGE_SIZE,
        canvas_size == 0 ==> pages == 1080,
{
    if canvas_size > 0 {
        canvas_size as u64 / 4096 + 512
    } else {
        1080
    }
}

/// Rounding up gives a multiple of the alignment, at or above the address and less
/// than one alignment above it.
pub proof fn lemma_padding(at: int, align: int)
    requires
        0 <= at,
        0 < align,
    ensures
        align_up(at, align) % align == 0,
        at <= align_up(at, align) < at + align,
{
    lemma_pad(at, align);
    vstd::arithmetic::div_mod::lemma_mod_bound(at, align);
    vstd::arithmetic::div_mod::lemma_mod_multiples_basic((at + align - 1) / align, align);
}

/// Every block is aligned, wherever the heap starts.
pub proof fn lemma_block_is_aligned(heap: Heap, align: u64)
    requires
        heap.wf(),
        0 < align,
    ensures
        (heap.start + padded(heap, align)) % align as int == 0,
{
    lemma_padding(heap.start + heap.top, align as int);
}

/// On a heap that itself starts at a multiple of the alignment it is the cursor
/// that is rounded up.
pub proof fn lemma_cursor_is_rounded(heap: Heap, align: u64)
    requires
        heap.wf(),
        0 < align,
        heap.start as int % align as int == 0,
    ensures
        padded(heap, align) == align_up(heap.top as int, align as int),
{
    let a = align as int;
    lemma_pad(heap.start + heap.top, a);
    lemma_pad(heap.top as int, a);
    vstd::arithmetic::div_mod::lemma_mod_adds(heap.start as int, heap.top as int, a);
    vstd::arithmetic::div_mod::lemma_mod_bound(heap.top as int, a);
    vstd::arithmetic::div_mod::lemma_fundamental_div_mod(heap.start as int, a);
    vstd::arithmetic::div_mod::lemma_mod_multiples_vanish(
        heap.start as int / a,
        heap.top as int,
        a,
    );
}

/// For an alignment that is a power of two rounding up is what masking the low bits
/// off gives.
pub proof fn lemma_padding_is_masking(at: u64, shift: u64)
    requires
        shift < 64,
        at + (1u64 << shift) - 1 <= u64::MAX,
    ensures
        align_up(at as int, (1u64 << shift) as int) == ((at + (1u64 << shift) - 1) as u64) & !(((
        1u64 << shift) - 1) as u64),
{
    let align = 1u64 << shift;
    let x = (at + align - 1) as u64;
    assert(align != 0 && (1u64 << shift) - 1 >= 0) by (bit_vector)
        requires
            shift < 64,
            align == 1u64 << shift,
    ;
    let mask = (align - 1) as u64;
    vstd::bits::lemma_u64_shr_is_div(x, shift);
    vstd::arithmetic::power2::lemma_pow2_strictly_increases(shift as nat, 64);
    vstd::arithmetic::power2::lemma2_to64_rest();
    vstd::bits::lemma_u64_shl_is_mul(1, shift);
    assert((x >> shift) << shift == x & !mask) by (bit_vector)
        requires
            shift < 64,
            mask == (1u64 << shift) - 1,
    ;
    assert((x >> shift) * align == (x >> shift) << shift) by (bit_vector)
        requires
            shift < 64,
            align == 1u64 << shift,
    ;
    assert(1 * vstd::arithmetic::power2::pow2(shift as nat) == align);
}

/// The heap after several blocks, each a length and an alignment, were asked for.
pub open spec fn after_all(heap: Heap, blocks: Seq<(u64, u64)>) -> Heap
    decreases blocks.len(),
{
    if blocks.len() == 0 {
        heap
    } else {
        after_all(after(heap, blocks[0].0, blocks[0].1), blocks.skip(1))
    }
}

/// However many blocks are asked for, the cursor never goes back.
proof fn lemma_cursor_rises(heap: Heap, blocks: Seq<(u64, u64)>)
    requires
        heap.wf(),
        forall|i: int| 0 <= i < blocks.len() ==> 0 < (#[trigger] blocks[i]).1,
    ensures
        after_all(heap, blocks).wf(),
        after_all(heap, blocks).start == heap.start,
        after_all(heap, blocks).size == heap.size,
        heap.top <= after_all(heap, blocks).top,
    decreases blocks.len(),
{
    if blocks.len() > 0 {
        assert(0 < blocks[0].1);
        lemma_padding(heap.start + heap.top, blocks[0].1 as int);
        lemma_cursor_rises(after(heap, blocks[0].0, blocks[0].1), blocks.skip(1));
    }
}

/// Blocks do not overlap, whatever was asked for between them, and they lie inside
/// the heap.
pub proof fn lemma_blocks_are_apart(
    heap: Heap,
    len1: u64,
    align1: u64,
    between: Seq<(u64, u64)>,
    len2: u64,
    align2: u64,
)
    requires
        heap.wf(),
        0 < align1,
        0 < align2,
        forall|i: int| 0 <= i < between.len() ==> 0 < (#[trigger] between[i]).1,
        has_room(heap, len1, align1),
        has_room(after_all(after(heap, len1, align1), between), len2, align2),
    ensures
        ({
            let later = after_all(after(heap, len1, align1), between);
            &&& heap.start <= heap.start + padded(heap, align1)
            &&& heap.start + padded(heap, align1) + len1 <= later.start + padded(later, align2)
            &&& later.start + padded(later, align2) + len2 <= heap.start + heap.size
        }),
{
    let then = after(heap, len1, align1);
    let later = after_all(then, between);
    lemma_padding(heap.start + heap.top, align1 as int);
    lemma_cursor_rises(then, between);
    lemma_padding(later.start + later.top, align2 as int);
}

/// A block is found exactly if some address fits: a multiple of the alignment, not
/// below the cursor, from which the block ends within the heap. The block starts at
/// the lowest such address and the cursor comes to stand behind it.
pub proof fn lemma_block_at_the_lowest_fit(heap: Heap, len: u64, align: u64, at: int)
    requires
        heap.wf(),
        0 < align,
        heap.start + heap.top <= at,
        at % align as int == 0,
    ensures
        heap.start != 0 && at + len <= heap.start + heap.size ==> has_room(heap, len, align),
        has_room(heap, len, align) ==> {
            let found = heap.start + padded(heap, align);
            &&& heap.start != 0
            &&& heap.start + heap.top <= found <= at
            &&& found % align as int == 0
            &&& found + len <= heap.start + heap.size
            &&& after(heap, len, align).top == found + len - heap.start
            &&& after(heap, len, align).start == heap.start
            &&& after(heap, len, align).size == heap.size
        },
        !has_room(heap, len, align) ==> after(heap, len, align) == heap,
{
    let a = align as int;
    let from = heap.start + heap.top;
    let found = align_up(from, a);
    lemma_padding(from, a);
    vstd::arithmetic::div_mod::lemma_fundamental_div_mod(at, a);
    vstd::arithmetic::div_mod::lemma_fundamental_div_mod(found, a);
    if at < found {
        let k = at / a;
        let m = found / a;
        assert(false) by (nonlinear_arith)
            requires
                at == a * k,
                found == a * m,
                at < found,
                found < from + a,
                from <= at,
                0 < a,
        ;
    }
}

/// The heap is built exactly if the lowest free frame and those after it, as many as
/// asked for, are all free; then it takes just these.
pub proof fn lemma_heap_takes_the_lowest_run(v: FrameView, n: nat)
    requires
        n > 0,
    ensures
        gives_run(Some(v), n) <==> v.next() is Some && run_at(v.free, v.next()->0, n as int),
        gives_run(Some(v), n) ==> taken_times(v, n).free == v.without_run(
            v.next()->0,
            n as int,
        ).free,
        base_of(Some(v), n) == match v.next() {
            Some(p) => 4096 * p,
            None => 0,
        },
    decreases n,
{
    lemma_lowest_free(v.free, 0);
    if v.next() is None {
    } else {
        let first = v.next()->0;
        lemma_run_taken(v, n);
        if run_at(v.free, first, n as int) {
            assert forall|i: nat| i < n implies #[trigger] nth_frame(v, i) == first_plus(
                v,
                i as int,
            ) by {
                if i > 0 {
                    lemma_run_taken(v, i);
                }
                lemma_next_in_run(v, i);
            }
        } else if in_row(v, n) {
            assert forall|p: int| first <= p < first + n implies v.free[p] by {
                lemma_row_is_free(v, n, (p - first) as nat);
            }
            lemma_row_is_free(v, n, (n - 1) as nat);
        }
    }
}

/// Taking frames of a run takes them from its start.
proof fn lemma_run_taken(v: FrameView, n: nat)
    requires
        n > 0,
        v.next() is Some,
    ensures
        run_at(v.free, v.next()->0, n as int) ==> taken_times(v, n).free == v.without_run(
            v.next()->0,
            n as int,
        ).free,
    decreases n,
{
    let first = v.next()->0;
    if run_at(v.free, first, n as int) {
        let before = taken_times(v, (n - 1) as nat);
        if n > 1 {
            lemma_run_taken(v, (n - 1) as nat);
        } else {
            assert(before.free =~= v.without_run(first, 0).free);
        }
        lemma_next_in_run(v, (n - 1) as nat);
        assert(taken_times(v, n).free =~= v.without_run(first, n as int).free);
    }
}

/// With `i` frames of a longer run taken the next one is the run's frame `i`.
proof fn lemma_next_in_run(v: FrameView, i: nat)
    requires
        v.next() is Some,
        run_at(v.free, v.next()->0, i as int + 1),
        taken_times(v, i).free == v.without_run(v.next()->0, i as int).free || i == 0,
    ensures
        taken_times(v, i).next() == Some(v.next()->0 + i),
{
    let first = v.next()->0;
    let t = taken_times(v, i);
    lemma_lowest_free(v.free, 0);
    lemma_lowest_free(t.free, 0);
    if i > 0 {
        assert(t.free[first + i]);
        assert(t.next() is Some);
        let q = t.next()->0;
        if q < first + i {
            assert(!v.without_run(first, i as int).free[q]);
        }
    }
}

/// Frames that come out in a row were free.
proof fn lemma_row_is_free(v: FrameView, n: nat, i: nat)
    requires
        in_row(v, n),
        i < n,
        v.next() is Some,
    ensures
        v.next()->0 + i < v.free.len(),
        v.free[v.next()->0 + i],
{
    let t = taken_times(v, i);
    assert(nth_frame(v, i) == first_plus(v, i as int));
    lemma_taken_len(v, i);
    lemma_lowest_free(t.free, 0);
    lemma_only_taken(v, i, v.next()->0 + i);
}

/// Taking frames frees none.
proof fn lemma_only_taken(v: FrameView, n: nat, p: int)
    requires
        0 <= p < v.free.len(),
    ensures
        taken_times(v, n).free[p] ==> v.free[p],
    decreases n,
{
    if n > 0 {
        lemma_only_taken(v, (n - 1) as nat, p);
        lemma_taken_len(v, (n - 1) as nat);
        lemma_lowest_free(taken_times(v, (n - 1) as nat).free, 0);
    }
}

} // verus!
