use mos_kernel::boot::{
    usable_total, Framebuffer, FramebufferRequest, FramebufferResponse, HhdmRequest, MemmapEntry,
    MemmapRequest, MemmapResponse, COMMON_MAGIC, MEMMAP_USABLE,
};
use mos_kernel::font::{Font, GLYPH_COUNT};
use mos_kernel::mm::{plan, Mm};
use mos_kernel::startup::{memory_up, report_memory, screen_up};

fn entry(base: u64, length: u64, kind: u64) -> MemmapEntry {
    MemmapEntry { base, length, kind }
}

fn framebuffer(width: u64, height: u64) -> Framebuffer {
    Framebuffer {
        address: 0xFFFF_8000_FD00_0000,
        width,
        height,
        pitch: width * 4,
        bpp: 32,
        memory_model: 1,
        red_mask_size: 8,
        red_mask_shift: 16,
        green_mask_size: 8,
        green_mask_shift: 8,
        blue_mask_size: 8,
        blue_mask_shift: 0,
    }
}

fn glyph_rows() -> Vec<u8> {
    (0..GLYPH_COUNT as u8).collect()
}

/// Reads a screen back whose font is 8x1 with each glyph's row its code.
fn read_back(mem: &[u8], width: usize) -> Vec<String> {
    mem.chunks(width * 4)
        .map(|row| {
            let codes: Vec<u8> = row
                .chunks(32)
                .map(|cell| {
                    (0..8).fold(0u8, |acc, i| (acc << 1) | u8::from(cell[i * 4] == 0xFF))
                })
                .collect();
            let text: String = codes.iter().filter(|&&c| c != 0).map(|&c| c as char).collect();
            text
        })
        .collect()
}

#[test]
fn requests_carry_their_marks() {
    let r = FramebufferRequest::new();
    assert_eq!(r.magic, [0xc7b1dd30df4c8b88, 0x0a82e883a194f07b]);
    assert_eq!(r.id, [0x9d5827dcd881dd75, 0xa3148604f6fab11b]);
    assert_eq!(r.revision, 0);
    assert!(r.response().is_none());
    let r = MemmapRequest::new();
    assert_eq!(r.magic, COMMON_MAGIC);
    assert_eq!(r.id, [0x67cf3d9d378a806f, 0xe304acdfc50c3c62]);
    assert!(r.response().is_none());
    let r = HhdmRequest::new();
    assert_eq!(r.id, [0x48dcf1cb8ad2b852, 0x63984e959a98244b]);
    assert_eq!(r.response(), None);
}

#[test]
fn answers_are_handed_on() {
    let screens = [framebuffer(640, 480)];
    let mut r = FramebufferRequest::new();
    r.response = Some(FramebufferResponse { revision: 1, framebuffers: &screens });
    let answer = r.response().unwrap();
    assert_eq!(answer.framebuffers().len(), 1);
    assert_eq!(answer.framebuffers()[0].address(), 0xFFFF_8000_FD00_0000);
    let sections = [entry(0x1000, 0x2000, 5)];
    let mut r = MemmapRequest::new();
    r.response = Some(MemmapResponse { revision: 0, entries: &sections });
    assert_eq!(r.response().unwrap().entries()[0].length, 0x2000);
    let mut r = HhdmRequest::new();
    r.response = Some(0xFFFF_8000_0000_0000);
    assert_eq!(r.response(), Some(0xFFFF_8000_0000_0000));
}

#[test]
fn kinds_have_names() {
    let names = [
        "usable",
        "reserved",
        "ACPI reclaimable",
        "ACPI NVS",
        "bad memory",
        "bootloader reclaimable",
        "kernel and modules",
        "framebuffer",
        "unknown",
    ];
    for (kind, name) in names.iter().enumerate() {
        assert_eq!(entry(0, 0, kind as u64).kind_name(), *name);
    }
    assert_eq!(entry(0, 0, u64::MAX).kind_name(), "unknown");
}

#[test]
fn only_usable_sections_count() {
    assert_eq!(usable_total(&[]), 0);
    let sections = [
        entry(0x1000, 0x9000, MEMMAP_USABLE),
        entry(0xA000, 0x10_0000, 1),
        entry(0x10_0000, 0x70_0000, MEMMAP_USABLE),
    ];
    assert_eq!(usable_total(&sections), 0x70_9000);
}

#[test]
fn the_memory_map_is_reported() {
    let rows = glyph_rows();
    let font = Font { width: 8, height: 1, rows: &rows };
    let fb = [framebuffer(320, 6)];
    let resp = FramebufferResponse { revision: 0, framebuffers: &fb };
    let mut mem = vec![0u8; 320 * 4 * 6];
    {
        let mut con = None;
        assert!(screen_up(&mut con, Some(&resp), &mut mem, font));
        // The greeting takes three lines.
        assert_eq!(con.as_ref().unwrap().row, 3);
    }
    assert_eq!(read_back(&mem, 320)[..3], ["=== MOS booting ===", "screen up", "screen: 140x6"]);
    let sections = [entry(0x1000, 0x9_F000, 0), entry(0x10_0000, 0x1FF0_0000, 0), entry(0x2000_0000, 0x1000, 2)];
    {
        let mut con = None;
        mos_kernel::console::init(&mut con, &fb[0], &mut mem, font);
        report_memory(&mut con, &sections);
    }
    assert_eq!(
        read_back(&mem, 320)[..5],
        [
            "memory map:",
            "  1000 +9F000 usable",
            "  100000 +1FF00000 usable",
            "  20000000 +1000 ACPI reclaimable",
            "usable total: 1FF MiB",
        ]
    );
}

#[test]
fn no_screen_is_reported_as_such() {
    let rows = glyph_rows();
    let font = Font { width: 8, height: 1, rows: &rows };
    let mut con = None;
    assert!(!screen_up(&mut con, None, &mut [], font));
    let resp = FramebufferResponse { revision: 0, framebuffers: &[] };
    assert!(!screen_up(&mut con, Some(&resp), &mut [], font));
    assert!(con.is_none());
}

#[test]
fn setting_memory_up_is_reported() {
    let rows = glyph_rows();
    let font = Font { width: 8, height: 1, rows: &rows };
    let fb = framebuffer(320, 12);
    let mut mem = vec![0u8; 320 * 4 * 12];
    // 16 MiB in all, the first section below the floor of the bitmap.
    let sections = [entry(0x1000, 0x9_F000, 0), entry(0x10_0000, 0xF0_0000, 0)];
    let p = plan(&sections);
    assert_eq!((p.top, p.frames, p.bitmap_len, p.bitmap_phys), (0x100_0000, 0x1000, 0x200, Some(0x10_0000)));
    let mut bitmap = vec![0xAAu8; 0x200];
    let mut mm = Mm::new();
    {
        let mut con = None;
        mos_kernel::console::init(&mut con, &fb, &mut mem, font);
        let resp = MemmapResponse { revision: 0, entries: &sections };
        assert!(memory_up(&mut con, &mut mm, &resp, 0xFFFF_8000_0000_0000, &mut bitmap));
    }
    // 0x9F low frames and 0xF00 high ones, without the one of the bitmap.
    assert_eq!(
        read_back(&mem, 320)[..8],
        [
            "hhdm ok",
            "mm init...",
            "mm: top=1000000 bitmap=200",
            "mm: bitmap at 100000",
            "mm: zeroing done",
            "mm: marking",
            "mm: bitmap ready",
            "mm up: 1000 frames, F9E free",
        ]
    );
}

#[test]
fn a_dot_is_shown_for_every_gibibyte() {
    let rows = glyph_rows();
    let font = Font { width: 8, height: 1, rows: &rows };
    let fb = framebuffer(320, 12);
    let mut mem = vec![0u8; 320 * 4 * 12];
    // Frames 0x40000 and 0x80000 earn a dot, frame 0xC0000 lies past the end.
    let sections = [entry(0x10_0000, 0xBFF0_0000, 0), entry(0xC000_0000, 0x1000, 1)];
    let p = plan(&sections);
    let mut bitmap = vec![0u8; p.bitmap_len as usize];
    let mut mm = Mm::new();
    {
        let mut con = None;
        mos_kernel::console::init(&mut con, &fb, &mut mem, font);
        let resp = MemmapResponse { revision: 0, entries: &sections };
        assert!(memory_up(&mut con, &mut mm, &resp, 0, &mut bitmap));
    }
    assert_eq!(read_back(&mem, 320)[5], "mm: marking..");
}

#[test]
fn a_map_without_room_for_the_bitmap_fails() {
    let rows = glyph_rows();
    let font = Font { width: 8, height: 1, rows: &rows };
    let fb = framebuffer(320, 6);
    let mut mem = vec![0u8; 320 * 4 * 6];
    let sections = [entry(0x1000, 0x9_F000, 0), entry(0x10_0000, 0x100_0000, 1)];
    let mut mm = Mm::new();
    {
        let mut con = None;
        mos_kernel::console::init(&mut con, &fb, &mut mem, font);
        let resp = MemmapResponse { revision: 0, entries: &sections };
        assert!(!memory_up(&mut con, &mut mm, &resp, 0, &mut []));
    }
    assert_eq!(
        read_back(&mem, 320)[..4],
        ["hhdm ok", "mm init...", "mm: top=A0000 bitmap=14", "mm init FAILED!"]
    );
    assert!(mm.allocator.is_none());
    assert_eq!(mm.regions.count, 2);
}
