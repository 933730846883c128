use mos_kernel::acpi::{
    clear_verdict, cleared_config, config_register, find_hpet, legacy_route, probe, probe_done,
    read_u32, read_u64, read_u8, show, stash, try_clear, Acpi, ClearStep, Note, Stage, Trail,
};
use mos_kernel::boot::{Framebuffer, MemmapEntry};
use mos_kernel::font::{Font, GLYPH_COUNT};
use mos_kernel::mm::RegionMap;

const OFFSET: u64 = 0xFFFF_8000_0000_0000;
const RSDP: u64 = 0x1000;
const SDT: u64 = 0x2000;
const FADT: u64 = 0x3000;
const HPET: u64 = 0x4004;
const REGS: u64 = 0xFED0_0000;

struct Machine {
    memory: Vec<u8>,
    map: RegionMap,
}

impl Machine {
    /// A memory of 64 KiB, all of it ACPI tables, and the timer's registers.
    fn new() -> Machine {
        let mut map = RegionMap::new();
        map.record(&[
            MemmapEntry { base: 0x1000, length: 0xF000, kind: 2 },
            MemmapEntry { base: REGS, length: 0x1000, kind: 1 },
        ]);
        Machine { memory: vec![0; 0x1_0000], map }
    }

    fn put(&mut self, at: u64, bytes: &[u8]) {
        self.memory[at as usize..at as usize + bytes.len()].copy_from_slice(bytes);
    }

    /// Tables with 64-bit addresses: an empty entry, another table, the timer.
    fn wide() -> Machine {
        let mut m = Machine::new();
        m.put(RSDP, b"RSD PTR ");
        m.put(RSDP + 15, &[2]);
        m.put(RSDP + 24, &SDT.to_le_bytes());
        m.put(SDT, b"XSDT");
        m.put(SDT + 4, &(36u32 + 24).to_le_bytes());
        m.put(SDT + 36 + 8, &FADT.to_le_bytes());
        m.put(SDT + 36 + 16, &HPET.to_le_bytes());
        m.put(FADT, b"FACP");
        m.hpet();
        m
    }

    /// Tables with 32-bit addresses.
    fn narrow() -> Machine {
        let mut m = Machine::new();
        m.put(RSDP, b"RSD PTR ");
        m.put(RSDP + 16, &(SDT as u32).to_le_bytes());
        m.put(SDT, b"RSDT");
        m.put(SDT + 4, &(36u32 + 8).to_le_bytes());
        m.put(SDT + 36, &(FADT as u32).to_le_bytes());
        m.put(SDT + 40, &(HPET as u32).to_le_bytes());
        m.put(FADT, b"FA\x07P");
        m.hpet();
        m
    }

    fn hpet(&mut self) {
        self.put(HPET, b"HPET");
        self.put(HPET + 48, &REGS.to_le_bytes());
    }

    /// Walks the tables and gives the registers and the notes on the way.
    fn walk(&self) -> (Option<u64>, Vec<String>) {
        let (mut walk, trail) = find_hpet(RSDP + OFFSET, OFFSET, &self.map);
        let mut notes = Vec::new();
        keep(&mut notes, trail);
        while let Some(req) = walk.request() {
            let at = (req.vaddr - OFFSET) as usize;
            let mut d = [0u8; 8];
            d[..req.len as usize].copy_from_slice(&self.memory[at..at + req.len as usize]);
            let trail = walk.advance(&self.map, &d);
            keep(&mut notes, trail);
        }
        match walk.stage {
            Stage::Done { registers } => (registers, notes),
            _ => panic!("the walk waits for nothing"),
        }
    }
}

fn keep(notes: &mut Vec<String>, trail: Trail) {
    for note in [trail.first, trail.second] {
        if let Some(n) = note {
            notes.push(text(&n));
        }
    }
}

/// What a note looks like on a screen whose font is 8x1 with codes as rows.
fn text(note: &Note) -> String {
    let rows: Vec<u8> = (0..GLYPH_COUNT as u8).collect();
    let font = Font { width: 8, height: 1, rows: &rows };
    let fb = Framebuffer {
        address: 0,
        width: 640,
        height: 2,
        pitch: 2560,
        bpp: 32,
        memory_model: 1,
        red_mask_size: 8,
        red_mask_shift: 16,
        green_mask_size: 8,
        green_mask_shift: 8,
        blue_mask_size: 8,
        blue_mask_shift: 0,
    };
    let mut mem = vec![0u8; 5120];
    {
        let mut con = None;
        mos_kernel::console::init(&mut con, &fb, &mut mem, font);
        show(&mut con, note);
        assert_eq!(con.as_ref().unwrap().row, 1);
    }
    mem[..2560]
        .chunks(32)
        .map(|cell| (0..8).fold(0u8, |acc, i| (acc << 1) | u8::from(cell[i * 4] == 0xFF)))
        .filter(|&c| c != 0)
        .map(|c| c as char)
        .collect()
}

#[test]
fn fields_are_read_lowest_byte_first() {
    let d = [0x88, 0x77, 0x66, 0x55, 0x44, 0x33, 0x22, 0x11];
    assert_eq!(read_u64(&d), 0x1122_3344_5566_7788);
    assert_eq!(read_u32(&d), 0x5566_7788);
    assert_eq!(read_u8(&d), 0x88);
}

#[test]
fn wide_tables_lead_to_the_registers() {
    let (registers, notes) = Machine::wide().walk();
    assert_eq!(registers, Some(REGS + OFFSET));
    assert_eq!(
        notes,
        [
            "acpi: rsdp @FFFF800000001000",
            "acpi: rev 2+",
            "acpi: FACP",
            "acpi: HPET",
            "acpi: hpet regs @FED00000",
            "acpi: reading hpet cfg (risk point)...",
        ]
    );
}

#[test]
fn narrow_tables_lead_there_too() {
    let (registers, notes) = Machine::narrow().walk();
    assert_eq!(registers, Some(REGS + OFFSET));
    // Bytes that cannot be shown come out as question marks.
    assert_eq!(notes[1..4], ["acpi: rev 0/1", "acpi: FA?P", "acpi: HPET"]);
}

#[test]
fn a_walk_ends_where_the_map_does() {
    let mut m = Machine::wide();
    m.map.record(&[MemmapEntry { base: 0x1000, length: 35, kind: 2 }]);
    let (registers, notes) = m.walk();
    assert_eq!(registers, None);
    assert_eq!(notes[1], "acpi: rsdp not in RAM map, STOP");

    let mut m = Machine::wide();
    m.map.record(&[MemmapEntry { base: 0x1000, length: 36, kind: 0 }]);
    let (registers, notes) = m.walk();
    assert_eq!(registers, None);
    assert_eq!(notes[2], "acpi: sdt 2000 not in RAM map, STOP");

    let mut m = Machine::wide();
    m.map.record(&[
        MemmapEntry { base: 0x1000, length: 36, kind: 0 },
        MemmapEntry { base: 0x2000, length: 59, kind: 3 },
    ]);
    let (registers, notes) = m.walk();
    assert_eq!(registers, None);
    assert_eq!(notes[2], "acpi: table crosses out of RAM, STOP");

    let mut m = Machine::wide();
    m.map.record(&[MemmapEntry { base: 0x1000, length: 0xF000, kind: 2 }]);
    let (registers, notes) = m.walk();
    assert_eq!(registers, None);
    assert_eq!(notes[5], "acpi: hpet regs not in memmap, too risky, STOP");
}

#[test]
fn a_walk_ends_at_nonsense() {
    let mut m = Machine::wide();
    m.put(RSDP, b"RSD PTX ");
    assert_eq!(m.walk().1[1], "acpi: bad rsdp sig, STOP");

    for len in [35u32, 0x2001, u32::MAX] {
        let mut m = Machine::wide();
        m.put(SDT + 4, &len.to_le_bytes());
        let (registers, notes) = m.walk();
        assert_eq!(registers, None);
        assert_eq!(notes[2], format!("acpi: table len {:X} insane, STOP", len));
    }

    let mut m = Machine::wide();
    m.put(HPET + 40, &[1]);
    assert_eq!(m.walk().1[4], "acpi: hpet addr space != mem, STOP");
}

#[test]
fn entries_outside_the_map_are_skipped() {
    let mut m = Machine::wide();
    m.put(SDT + 36 + 8, &0xDEAD_0000u64.to_le_bytes());
    let (registers, notes) = m.walk();
    assert_eq!(registers, Some(REGS + OFFSET));
    assert_eq!(notes[2], "acpi: entry DEAD0000 not in RAM map, skip");
}

#[test]
fn a_machine_without_the_timer_says_so() {
    let mut m = Machine::wide();
    m.put(HPET, b"SSDT");
    let (registers, notes) = m.walk();
    assert_eq!(registers, None);
    assert_eq!(notes[4], "acpi: no HPET table");
    // A table of only a header has no entries, and a rest too short for one is
    // left alone.
    for len in [36u32, 43] {
        let mut m = Machine::wide();
        m.put(SDT + 4, &len.to_le_bytes());
        assert_eq!(m.walk().1[2], "acpi: no HPET table");
    }
}

#[test]
fn nothing_is_probed_without_a_root() {
    let acpi = Acpi::new();
    let (walk, trail) = probe(&acpi, &RegionMap::new());
    assert!(walk.is_none());
    assert_eq!(text(&trail.first.unwrap()), "acpi: no rsdp from bootloader");
    assert!(trail.second.is_none());
}

#[test]
fn the_line_is_taken_back_step_by_step() {
    let m = Machine::wide();
    let mut acpi = Acpi::new();
    stash(&mut acpi, RSDP + OFFSET, OFFSET);
    assert_eq!((acpi.rsdp, acpi.hhdm), (RSDP + OFFSET, OFFSET));
    assert_eq!(config_register(&acpi), None);
    assert_eq!(legacy_route(&acpi, 2), None);
    match try_clear(&acpi) {
        ClearStep::Refused { note } => assert_eq!(text(&note), "acpi: press H first"),
        ClearStep::Read { .. } => panic!("not probed yet"),
    }
    assert!(probe(&acpi, &m.map).0.is_some());
    // A probe that found nothing.
    probe_done(&mut acpi, None);
    match try_clear(&acpi) {
        ClearStep::Refused { note } => assert_eq!(text(&note), "acpi: no hpet, nothing to clear"),
        ClearStep::Read { .. } => panic!("nothing to read"),
    }
    probe_done(&mut acpi, Some(REGS + OFFSET));
    assert_eq!(config_register(&acpi), Some(REGS + OFFSET + 0x10));
    assert_eq!(legacy_route(&acpi, 0b11), Some(true));
    assert_eq!(legacy_route(&acpi, 0b101), Some(false));
    match try_clear(&acpi) {
        ClearStep::Refused { .. } => panic!("there is something to read"),
        ClearStep::Read { reg } => assert_eq!(reg, REGS + OFFSET + 0x10),
    }
    assert_eq!(text(&clear_verdict(0b01)), "acpi: L is already 0, nothing to clear");
    assert_eq!(text(&clear_verdict(0b11)), "acpi: clearing LEG_RT_CNF...");
    assert_eq!(cleared_config(0b111), 0b101);
    assert_eq!(cleared_config(0b101), 0b101);
    assert_eq!(text(&Note::Cleared), "acpi: cleared. watch T= go");
    // A later probe that finds nothing keeps what is known.
    probe_done(&mut acpi, None);
    assert_eq!(acpi.hpet_vbase, REGS + OFFSET);
}
