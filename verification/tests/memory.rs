use mos_kernel::boot::{MemmapEntry, MemmapResponse};
use mos_kernel::heap::{self, allocate, dealloc, pages_for, Heap};
use mos_kernel::mm::{
    alloc_frame, alloc_frame_contig, free_frame, in_map, in_ram, init, phys_to_virt, plan, stats,
    FrameAllocator, Mm, RegionMap, PAGE_SIZE,
};

const OFFSET: u64 = 0xFFFF_8000_0000_0000;

fn entry(base: u64, length: u64, kind: u64) -> MemmapEntry {
    MemmapEntry { base, length, kind }
}

/// 4 MiB: a low section, a hole, and two sections with a page between them.
fn sections() -> [MemmapEntry; 4] {
    [
        entry(0x0, 0x3000, 0),
        entry(0x3000, 0xF_D000, 1),
        entry(0x10_0000, 0x10_0000, 0),
        entry(0x20_1000, 0x1F_F000, 0),
    ]
}

fn machine<'a>(sections: &[MemmapEntry], bitmap: &'a mut [u8]) -> Mm<'a> {
    let mut mm = Mm::new();
    let resp = MemmapResponse { revision: 0, entries: sections };
    assert!(init(&mut mm, &resp, OFFSET, bitmap));
    mm
}

#[test]
fn frames_come_lowest_first_and_come_back() {
    let s = sections();
    let p = plan(&s);
    assert_eq!((p.frames, p.bitmap_len, p.bitmap_phys), (0x400, 0x80, Some(0x10_0000)));
    let mut bitmap = vec![0xFFu8; 0x80];
    let mut mm = machine(&s, &mut bitmap);
    // 3 + 0x100 + 0x1FF usable frames, one of them taken by the bitmap.
    assert_eq!(stats(&mm), (0x400, 3 + 0x100 + 0x1FF - 1));
    let p1 = alloc_frame(&mut mm);
    let p2 = alloc_frame(&mut mm);
    let p3 = alloc_frame(&mut mm);
    assert_eq!((p1, p2, p3), (Some(0), Some(0x1000), Some(0x2000)));
    assert_eq!(stats(&mm).1, 0x301 - 3);
    // The frame given back is the next one handed out.
    free_frame(&mut mm, p2.unwrap());
    assert_eq!(stats(&mm).1, 0x301 - 2);
    assert_eq!(alloc_frame(&mut mm), p2);
    // The next free frame lies behind the bitmap.
    assert_eq!(alloc_frame(&mut mm), Some(0x10_1000));
    assert_eq!(phys_to_virt(&mm, 0x10_1000), 0xFFFF_8000_0010_1000);
}

#[test]
fn runs_are_the_first_that_are_long_enough() {
    let s = sections();
    let mut bitmap = vec![0u8; 0x80];
    let mut mm = machine(&s, &mut bitmap);
    assert_eq!(alloc_frame_contig(&mut mm, 0), None);
    assert_eq!(alloc_frame_contig(&mut mm, 3), Some(0));
    // The next run of five starts behind the bitmap, not in the low memory.
    assert_eq!(alloc_frame_contig(&mut mm, 5), Some(0x10_1000));
    // The page between the sections breaks a run of 0x100.
    assert_eq!(alloc_frame_contig(&mut mm, 0x100), Some(0x20_1000));
    assert_eq!(alloc_frame_contig(&mut mm, 0x200), None);
    assert_eq!(stats(&mm).1, 0x301 - 3 - 5 - 0x100);
    assert_eq!(alloc_frame(&mut mm), Some(0x10_6000));
}

#[test]
fn frames_run_out_and_return() {
    // Just enough for the bitmap and two frames, with ragged ends.
    let s = [entry(0x10_0000, 0x3000, 0), entry(0x10_3800, 0x1000, 0)];
    let p = plan(&s);
    assert_eq!((p.top, p.frames, p.bitmap_len), (0x10_4800, 0x104, 0x21));
    let mut bitmap = vec![0u8; 0x21];
    let mut mm = machine(&s, &mut bitmap);
    assert_eq!(stats(&mm), (0x104, 2));
    assert_eq!(alloc_frame(&mut mm), Some(0x10_1000));
    assert_eq!(alloc_frame(&mut mm), Some(0x10_2000));
    assert_eq!(alloc_frame(&mut mm), None);
    assert_eq!(stats(&mm).1, 0);
    free_frame(&mut mm, 0x10_1000);
    free_frame(&mut mm, 0x10_2000);
    assert_eq!(stats(&mm).1, 2);
    assert_eq!(alloc_frame_contig(&mut mm, 2), Some(0x10_1000));
}

#[test]
fn the_bitmap_keeps_clear_of_low_and_small_sections() {
    let s = [
        entry(0x1000, 0x9_F000, 0),
        entry(0x10_0000, 0x10, 0),
        entry(0x20_0000, 0x10_0000, 2),
        entry(0x40_0000, 0x10_0000, 0),
        entry(0x80_0000, 0x10_0000, 0),
    ];
    assert_eq!(plan(&s).bitmap_phys, Some(0x40_0000));
    assert_eq!(plan(&[]).bitmap_phys, None);
    assert_eq!(plan(&s[..1]).bitmap_phys, None);
}

#[test]
fn a_bitmap_that_starts_inside_a_page_keeps_all_its_pages() {
    // 2304 bytes from 0x100800 on reach into page 0x101.
    let s = [entry(0x10_0800, 0x46F_F800, 0)];
    let p = plan(&s);
    assert_eq!((p.frames, p.bitmap_len, p.bitmap_phys), (0x4800, 2304, Some(0x10_0800)));
    let mut bitmap = vec![0u8; 2304];
    let mut mm = machine(&s, &mut bitmap);
    let a = mm.allocator.as_ref().unwrap();
    assert!(!a.is_free(0x100) && !a.is_free(0x101) && a.is_free(0x102));
    // Page 0x100 is not usable as a whole.
    assert_eq!(stats(&mm), (0x4800, 0x4800 - 0x102));
    assert_eq!(alloc_frame(&mut mm), Some(0x10_2000));
    // A bitmap that just ends with its page leaves the next one free.
    let s = [entry(0x10_0800, 0x3EF_F800, 0)];
    assert_eq!(plan(&s).bitmap_len, 2048);
    let mut bitmap = vec![0u8; 2048];
    let mut mm = machine(&s, &mut bitmap);
    assert_eq!(alloc_frame(&mut mm), Some(0x10_1000));
}

#[test]
fn before_it_is_set_up_there_is_no_memory() {
    let mut mm = Mm::new();
    assert_eq!(stats(&mm), (0, 0));
    assert_eq!(alloc_frame(&mut mm), None);
    assert_eq!(alloc_frame_contig(&mut mm, 1), None);
    free_frame(&mut mm, 0x1000);
    assert!(!in_ram(&mm.regions, 0, 1));
    assert!(!in_map(&mm.regions, 0, 1));
}

#[test]
fn single_bits_move_alone() {
    let mut bitmap = vec![0u8; 3];
    let mut a = FrameAllocator { bitmap: &mut bitmap, frames: 20, next_hint: 0 };
    a.set_free(9);
    a.set_free(19);
    assert!(a.is_free(9) && a.is_free(19) && !a.is_free(8) && !a.is_free(10));
    assert_eq!(a.count_free(), 2);
    a.set_used(9);
    assert!(!a.is_free(9));
    assert_eq!(a.take_lowest(), Some(19 * PAGE_SIZE));
    assert_eq!(a.take_lowest(), None);
    a.give_back(3);
    assert_eq!(a.next_hint, 3);
    assert_eq!(a.take_run(1), Some(3 * PAGE_SIZE));
}

#[test]
fn addresses_are_looked_up_in_the_snapshot() {
    let s = [
        entry(0x1000, 0x1000, 0),
        entry(0x2000, 0x1000, 1),
        entry(0x3000, 0x1000, 2),
        entry(0x4000, 0x1000, 3),
        entry(0x5000, 0x1000, 4),
        entry(0x6000, 0x1000, 5),
        entry(0x7000, 0x1000, 6),
        entry(0xFFFF_FFFF_FFFF_F000, 0xFFF, 1),
    ];
    let mut map = RegionMap::new();
    map.record(&s);
    assert_eq!(map.count, 8);
    let ram: Vec<bool> = (1..8).map(|k| in_ram(&map, k * 0x1000, 0x1000)).collect();
    assert_eq!(ram, [true, false, true, true, false, true, false]);
    for k in 1..8 {
        assert!(in_map(&map, k * 0x1000, 0x1000));
        // A range across two sections lies in neither.
        assert!(!in_map(&map, k * 0x1000 + 1, 0x1000));
    }
    assert!(in_ram(&map, 0x1FFF, 1));
    assert!(!in_ram(&map, 0x1FFF, 2));
    assert!(!in_ram(&map, 0xFFF, 1));
    // Ranges that reach past the end of the address space are in nothing.
    assert!(!in_map(&map, 0xFFFF_FFFF_FFFF_FFFF, 0x1000));
    assert!(in_map(&map, 0xFFFF_FFFF_FFFF_F000, 0xFFF));
}

#[test]
fn the_snapshot_keeps_the_first_sections() {
    let s: Vec<MemmapEntry> = (0..200).map(|i| entry(i * 0x1000, 0x1000, 0)).collect();
    let mut map = RegionMap::new();
    map.record(&s);
    assert_eq!(map.count, 128);
    assert!(in_ram(&map, 127 * 0x1000, 0x1000));
    assert!(!in_ram(&map, 128 * 0x1000, 0x1000));
    map.record(&s[..1]);
    assert_eq!(map.count, 1);
    assert!(!in_ram(&map, 0x1000, 0x1000));
}

#[test]
fn the_heap_grows_and_never_shrinks() {
    let s = [entry(0x10_0000, 0x10_0000, 0)];
    let mut bitmap = vec![0u8; plan(&s).bitmap_len as usize];
    let mut mm = machine(&s, &mut bitmap);
    let mut heap = Heap::new();
    assert_eq!(allocate(&mut heap, 1, 1), None);
    assert!(heap::init(&mut heap, &mut mm, 2));
    assert_eq!(heap.start, OFFSET + 0x10_1000);
    assert_eq!(heap.size, 0x2000);
    let base = heap.start;
    assert_eq!(allocate(&mut heap, 5, 1), Some(base));
    assert_eq!(allocate(&mut heap, 8, 8), Some(base + 8));
    assert_eq!(allocate(&mut heap, 1, 4096), Some(base + 0x1000));
    dealloc(&mut heap, base + 0x1000);
    assert_eq!(heap.top, 0x1001);
    assert_eq!(allocate(&mut heap, 0xFFF, 1), Some(base + 0x1001));
    assert_eq!(allocate(&mut heap, 1, 1), None);
    // A block of no bytes still fits.
    assert_eq!(allocate(&mut heap, 0, 1), Some(base + 0x2000));
    assert_eq!(allocate(&mut heap, u64::MAX, 1), None);
}

#[test]
fn the_heap_wants_frames_in_a_row() {
    let s = sections();
    let mut bitmap = vec![0u8; 0x80];
    let mut mm = machine(&s, &mut bitmap);
    let mut heap = Heap::new();
    // Three low frames, then a gap.
    assert!(!heap::init(&mut heap, &mut mm, 4));
    assert_eq!(heap.start, 0);
    // The frames taken on the way stay taken.
    assert_eq!(stats(&mm).1, 0x301 - 4);
    assert!(heap::init(&mut heap, &mut mm, 4));
    assert_eq!(heap.start, OFFSET + 0x10_2000);
    // More than there is.
    assert!(!heap::init(&mut heap, &mut mm, 0x1000));
    assert_eq!(heap.size, 0x4000);
}

#[test]
fn the_heap_is_as_large_as_the_screen_asks() {
    assert_eq!(pages_for(0), 1080);
    assert_eq!(pages_for(1), 512);
    assert_eq!(pages_for(1280 * 800 * 4), 1000 + 512);
    assert_eq!(pages_for(2560 * 1600 * 4), 4000 + 512);
}

#[test]
fn blocks_are_aligned_wherever_the_heap_starts() {
    let mut heap = Heap::over(0x1000, 0x1_0000);
    assert_eq!(allocate(&mut heap, 1, 0x2000), Some(0x2000));
    assert_eq!(heap.top, 0x1001);
    assert_eq!(allocate(&mut heap, 4, 0x4000), Some(0x4000));
    assert_eq!(allocate(&mut heap, 4, 3), Some(0x4005));
    // The end of the heap at 0x11000 is judged by the aligned address.
    assert_eq!(allocate(&mut heap, 0x1000, 0x1_0000), Some(0x1_0000));
    let mut heap = Heap::over(0x1000, 0x1_0000);
    assert_eq!(allocate(&mut heap, 0x1001, 0x1_0000), None);
    assert_eq!(heap.top, 0);
}

#[test]
fn blocks_never_overlap() {
    let mut heap = Heap::over(0x1_0000, 0x1000);
    let mut end = 0x1_0000;
    for i in 0..20u64 {
        let align = 1 << (i % 6);
        let len = i * 3 + 1;
        let at = allocate(&mut heap, len, align).unwrap();
        assert!(at >= end);
        assert_eq!(at % align, 0);
        end = at + len;
    }
    assert!(end <= 0x1_1000);
}
