//! A minimal walk through the ACPI tables: from the root pointer over the root
//! table to the HPET table, for the address of the timer's registers.
//!
//! A wrong pointer here means a page fault that nobody sees, so nothing is read
//! before the memory map has been asked about it. The walk is a machine: it says
//! what it wants read, takes what was read, and says what it has come upon, so
//! that the last line on the screen tells how far it got.
//!
//! The layout that ACPI fixes: the root pointer holds its revision at offset 15
//! and the root table's address at offset 16 (32 bits, revisions 0 and 1) or 24
//! (64 bits); a table starts with a header of 36 bytes, with the table's length at
//! offset 4; the HPET table holds the kind of address at offset 40 and the address
//! at offset 48.

use crate::console::{print, print_bytes, print_field, Console};
#[allow(unused_imports)]
use crate::console::{after_text, hex_text, lemma_texts_join, ready, screen_of};
use crate::mm::{in_map, in_ram, RegionMap};
#[allow(unused_imports)]
use crate::mm::{lemma_ram_is_mapped, map_holds, ram_holds, Region};
use vstd::prelude::*;
#[allow(unused_imports)]
use vstd::string::StringSliceAdditionalSpecFns;

verus! {

/// Offset of the general configuration register from the timer's registers.
pub const REG_GENERAL_CONFIG: u64 = 0x10;

/// The bit of that register that routes the timer over the old clock line.
pub const LEG_RT_CNF: u64 = 0x2;

/// What a root pointer starts with, "RSD PTR ".
pub const RSDP_SIGNATURE: [u8; 8] = [0x52, 0x53, 0x44, 0x20, 0x50, 0x54, 0x52, 0x20];

/// What the table of the timer starts with, "HPET".
pub const HPET_SIGNATURE: [u8; 4] = [0x48, 0x50, 0x45, 0x54];

/// How many bytes of a root pointer are looked at.
pub const RSDP_BYTES: u64 = 36;

/// How many bytes the header of a table has.
pub const HEADER_BYTES: u64 = 36;

/// How many bytes of the HPET table are looked at.
pub const HPET_BYTES: u64 = 56;

/// The longest root table that is believed.
pub const LONGEST_TABLE: u64 = 0x2000;

/// How many bytes the timer's registers take.
pub const REGISTER_BYTES: u64 = 0x1000;

/// Two to the power of 64: addresses are added modulo this.
pub open spec fn address_space() -> int {
    0x1_0000_0000_0000_0000
}

/// Where the mirror of a physical address lies.
pub open spec fn virt(phys: int, hhdm: u64) -> u64 {
    ((phys + hhdm) % address_space()) as u64
}

/// Four bytes as a number, lowest byte first.
pub open spec fn le32(d: Seq<u8>) -> int {
    d[0] + d[1] * 0x100 + d[2] * 0x1_0000 + d[3] * 0x100_0000
}

/// Eight bytes as a number, lowest byte first.
pub open spec fn le64(d: Seq<u8>) -> int {
    le32(d) + d[4] * 0x1_0000_0000 + d[5] * 0x100_0000_0000 + d[6] * 0x1_0000_0000_0000 + d[7]
        * 0x100_0000_0000_0000
}

/// The number in eight bytes.
pub fn read_u64(d: &[u8; 8]) -> (v: u64)
    ensures
        v == le64(d@),
{
    let low: u64 = read_u32(d) as u64;
    low + d[4] as u64 * 0x1_0000_0000 + d[5] as u64 * 0x100_0000_0000 + d[6] as u64
        * 0x1_0000_0000_0000 + d[7] as u64 * 0x100_0000_0000_0000
}

/// The number in the first four of eight bytes.
pub fn read_u32(d: &[u8; 8]) -> (v: u32)
    ensures
        v == le32(d@),
{
    d[0] as u32 + d[1] as u32 * 0x100 + d[2] as u32 * 0x1_0000 + d[3] as u32 * 0x100_0000
}

/// The first of eight bytes.
pub fn read_u8(d: &[u8; 8]) -> (v: u8)
    ensures
        v == d@[0],
{
    d[0]
}

/// Something the walk has come upon.
#[derive(Clone, Copy)]
pub enum Note {
    NoRsdp,
    Rsdp { at: u64 },
    RsdpNotInRam,
    BadSignature,
    Revision2,
    Revision01,
    SdtNotInRam { at: u64 },
    LengthInsane { len: u64 },
    TableCrosses,
    EntrySkipped { at: u64 },
    Table { name: [u8; 4] },
    SpaceNotMemory,
    Registers { at: u64 },
    RegistersNotMapped,
    RiskPoint,
    NoHpet,
    ProbeFirst,
    NothingToClear,
    AlreadyClear,
    Clearing,
    Cleared,
}

/// A note as text.
pub open spec fn note_text(note: Note) -> Seq<u8> {
    match note {
        Note::NoRsdp => "acpi: no rsdp from bootloader\n".spec_bytes(),
        Note::Rsdp { at } => "acpi: rsdp @".spec_bytes() + hex_text(at as nat) + "\n".spec_bytes(),
        Note::RsdpNotInRam => "acpi: rsdp not in RAM map, STOP\n".spec_bytes(),
        Note::BadSignature => "acpi: bad rsdp sig, STOP\n".spec_bytes(),
        Note::Revision2 => "acpi: rev 2+\n".spec_bytes(),
        Note::Revision01 => "acpi: rev 0/1\n".spec_bytes(),
        Note::SdtNotInRam { at } => "acpi: sdt ".spec_bytes() + hex_text(at as nat)
            + " not in RAM map, STOP\n".spec_bytes(),
        Note::LengthInsane { len } => "acpi: table len ".spec_bytes() + hex_text(len as nat)
            + " insane, STOP\n".spec_bytes(),
        Note::TableCrosses => "acpi: table crosses out of RAM, STOP\n".spec_bytes(),
        Note::EntrySkipped { at } => "acpi: entry ".spec_bytes() + hex_text(at as nat)
            + " not in RAM map, skip\n".spec_bytes(),
        Note::Table { name } => "acpi: ".spec_bytes() + name@ + "\n".spec_bytes(),
        Note::SpaceNotMemory => "acpi: hpet addr space != mem, STOP\n".spec_bytes(),
        Note::Registers { at } => "acpi: hpet regs @".spec_bytes() + hex_text(at as nat)
            + "\n".spec_bytes(),
        Note::RegistersNotMapped =>
            "acpi: hpet regs not in memmap, too risky, STOP\n".spec_bytes(),
        Note::RiskPoint => "acpi: reading hpet cfg (risk point)...\n".spec_bytes(),
        Note::NoHpet => "acpi: no HPET table\n".spec_bytes(),
        Note::ProbeFirst => "acpi: press H first\n".spec_bytes(),
        Note::NothingToClear => "acpi: no hpet, nothing to clear\n".spec_bytes(),
        Note::AlreadyClear => "acpi: L is already 0, nothing to clear\n".spec_bytes(),
        Note::Clearing => "acpi: clearing LEG_RT_CNF...\n".spec_bytes(),
        Note::Cleared => "acpi: cleared. watch T= go\n".spec_bytes(),
    }
}

/// Writes a note to the screen.
pub fn show(con: &mut Option<Console>, note: &Note)
    requires
        ready(*old(con)),
    ensures
        ready(*final(con)),
        screen_of(*final(con)) == after_text(screen_of(*old(con)), note_text(*note)),
{
    match *note {
        Note::NoRsdp => print(con, "acpi: no rsdp from bootloader\n"),
        Note::Rsdp { at } => print_field(con, "acpi: rsdp @", at, "\n"),
        Note::RsdpNotInRam => print(con, "acpi: rsdp not in RAM map, STOP\n"),
        Note::BadSignature => print(con, "acpi: bad rsdp sig, STOP\n"),
        Note::Revision2 => print(con, "acpi: rev 2+\n"),
        Note::Revision01 => print(con, "acpi: rev 0/1\n"),
        Note::SdtNotInRam { at } => print_field(con, "acpi: sdt ", at, " not in RAM map, STOP\n"),
        Note::LengthInsane { len } => print_field(con, "acpi: table len ", len, " insane, STOP\n"),
        Note::TableCrosses => print(con, "acpi: table crosses out of RAM, STOP\n"),
        Note::EntrySkipped { at } => print_field(con, "acpi: entry ", at, " not in RAM map, skip\n"),
        Note::Table { name } => {
            proof {
                let a = "acpi: ".spec_bytes();
                lemma_texts_join(screen_of(*con), a, name@);
                lemma_texts_join(screen_of(*con), a + name@, "\n".spec_bytes());
            }
            print(con, "acpi: ");
            print_bytes(con, name.as_slice());
            print(con, "\n");
        },
        Note::SpaceNotMemory => print(con, "acpi: hpet addr space != mem, STOP\n"),
        Note::Registers { at } => print_field(con, "acpi: hpet regs @", at, "\n"),
        Note::RegistersNotMapped => print(
            con,
            "acpi: hpet regs not in memmap, too risky, STOP\n",
        ),
        Note::RiskPoint => print(con, "acpi: reading hpet cfg (risk point)...\n"),
        Note::NoHpet => print(con, "acpi: no HPET table\n"),
        Note::ProbeFirst => print(con, "acpi: press H first\n"),
        Note::NothingToClear => print(con, "acpi: no hpet, nothing to clear\n"),
        Note::AlreadyClear => print(con, "acpi: L is already 0, nothing to clear\n"),
        Note::Clearing => print(con, "acpi: clearing LEG_RT_CNF...\n"),
        Note::Cleared => print(con, "acpi: cleared. watch T= go\n"),
    }
}

/// How many bytes an address in the root table has.
pub open spec fn entry_bytes(wide: bool) -> int {
    if wide {
        8
    } else {
        4
    }
}

/// An address in the root table.
pub open spec fn entry_value(d: Seq<u8>, wide: bool) -> int {
    if wide {
        le64(d)
    } else {
        le32(d)
    }
}

/// Where the walk stands; every stage but the last waits for something to be
/// read. `wide` tells 64-bit addresses in the root table from 32-bit ones, `sdt`
/// is the physical address of the root table, `len` its length, `off` the place of
/// the next address in it, `table` the physical address of the table looked at.
#[derive(Clone, Copy)]
pub enum Stage {
    Signature,
    Revision,
    Root { wide: bool },
    Length { wide: bool, sdt: u64 },
    Entry { wide: bool, sdt: u64, len: u64, off: u64 },
    Name { wide: bool, sdt: u64, len: u64, off: u64, table: u64 },
    Space { table: u64 },
    Base { table: u64 },
    Done { registers: Option<u64> },
}

/// What one move of the walk has come upon, in order.
#[derive(Clone, Copy)]
pub struct Trail {
    pub first: Option<Note>,
    pub second: Option<Note>,
}

/// A walk: the address of the root pointer, the offset of the mirror, and where
/// the walk stands.
#[derive(Clone, Copy)]
pub struct Walk {
    pub rsdp: u64,
    pub hhdm: u64,
    pub stage: Stage,
}

/// `len` bytes, eight at most, to be read from address `vaddr` on.
#[derive(Clone, Copy)]
pub struct ReadRequest {
    pub vaddr: u64,
    pub len: u8,
}

/// The physical address of the root pointer.
pub open spec fn rsdp_phys(rsdp: u64, hhdm: u64) -> u64 {
    ((rsdp - hhdm) % address_space()) as u64
}

/// The physical address that a stage wants read, and how many bytes of it.
pub open spec fn wanted(w: Walk) -> (int, int) {
    match w.stage {
        Stage::Signature => (rsdp_phys(w.rsdp, w.hhdm) as int, 8),
        Stage::Revision => (rsdp_phys(w.rsdp, w.hhdm) + 15, 1),
        Stage::Root { wide } => (
            rsdp_phys(w.rsdp, w.hhdm) + if wide {
                24int
            } else {
                16
            },
            entry_bytes(wide),
        ),
        Stage::Length { wide, sdt } => (sdt + 4, 4),
        Stage::Entry { wide, sdt, len, off } => (sdt + off, entry_bytes(wide)),
        Stage::Name { wide, sdt, len, off, table } => (table as int, 4),
        Stage::Space { table } => (table + 40, 1),
        Stage::Base { table } => (table + 48, 8),
        Stage::Done { registers } => (0, 0),
    }
}

/// What the walk has made sure of at each stage: whatever it will read next lies
/// in memory.
pub open spec fn walk_wf(w: Walk, map: Seq<Region>) -> bool {
    match w.stage {
        Stage::Signature | Stage::Revision | Stage::Root { .. } => ram_holds(
            map,
            rsdp_phys(w.rsdp, w.hhdm) as int,
            RSDP_BYTES as int,
        ),
        Stage::Length { wide, sdt } => ram_holds(map, sdt as int, HEADER_BYTES as int),
        Stage::Entry { wide, sdt, len, off } => {
            &&& ram_holds(map, sdt as int, len as int)
            &&& HEADER_BYTES <= len <= LONGEST_TABLE
            &&& HEADER_BYTES <= off
            &&& off + entry_bytes(wide) <= len
        },
        Stage::Name { wide, sdt, len, off, table } => {
            &&& ram_holds(map, sdt as int, len as int)
            &&& HEADER_BYTES <= len <= LONGEST_TABLE
            &&& HEADER_BYTES <= off <= len
            &&& ram_holds(map, table as int, HPET_BYTES as int)
        },
        Stage::Space { table } => ram_holds(map, table as int, HPET_BYTES as int),
        Stage::Base { table } => ram_holds(map, table as int, HPET_BYTES as int),
        Stage::Done { registers } => true,
    }
}

/// What the walk wants read always lies inside one region of the memory map that
/// is memory.
pub proof fn lemma_reads_are_guarded(w: Walk, map: Seq<Region>)
    requires
        walk_wf(w, map),
        !(w.stage is Done),
    ensures
        ram_holds(map, wanted(w).0, wanted(w).1),
{
    match w.stage {
        Stage::Signature | Stage::Revision | Stage::Root { .. } => {
            lemma_ram_is_mapped(
                map,
                rsdp_phys(w.rsdp, w.hhdm) as int,
                RSDP_BYTES as int,
                wanted(w).0 - rsdp_phys(w.rsdp, w.hhdm),
                wanted(w).1,
            );
        },
        Stage::Length { wide, sdt } => {
            lemma_ram_is_mapped(map, sdt as int, HEADER_BYTES as int, 4, 4);
        },
        Stage::Entry { wide, sdt, len, off } => {
            lemma_ram_is_mapped(map, sdt as int, len as int, off as int, entry_bytes(wide));
        },
        Stage::Name { wide, sdt, len, off, table } => {
            lemma_ram_is_mapped(map, table as int, HPET_BYTES as int, 0, 4);
        },
        Stage::Space { table } => {
            lemma_ram_is_mapped(map, table as int, HPET_BYTES as int, 40, 1);
        },
        Stage::Base { table } => {
            lemma_ram_is_mapped(map, table as int, HPET_BYTES as int, 48, 8);
        },
        Stage::Done { registers } => {},
    }
}

/// A character of a table's name as it is shown: anything that is not a graphic
/// ASCII character is a question mark.
pub open spec fn graphic(b: u8) -> u8 {
    if 0x21 <= b <= 0x7E {
        b
    } else {
        0x3F
    }
}

/// The name of a table as it is shown.
pub open spec fn shown_name(d: Seq<u8>) -> Seq<u8> {
    seq![graphic(d[0]), graphic(d[1]), graphic(d[2]), graphic(d[3])]
}

/// No note at all.
pub open spec fn silent() -> Trail {
    Trail { first: None, second: None }
}

/// One note.
pub open spec fn noted(n: Note) -> Trail {
    Trail { first: Some(n), second: None }
}

/// The walk ends without result, with a note.
pub open spec fn stopped(n: Note) -> (Stage, Trail) {
    (Stage::Done { registers: None }, noted(n))
}

/// On to the next address in the root table, or to the end if that was the last.
pub open spec fn onward(
    wide: bool,
    sdt: u64,
    len: u64,
    off: u64,
    note: Option<Note>,
) -> (Stage, Trail) {
    if off + entry_bytes(wide) <= len {
        (Stage::Entry { wide, sdt, len, off }, Trail { first: note, second: None })
    } else {
        (
            Stage::Done { registers: None },
            match note {
                Some(n) => Trail { first: Some(n), second: Some(Note::NoHpet) },
                None => noted(Note::NoHpet),
            },
        )
    }
}

/// What a move makes of the bytes that were read, and what it notes.
pub open spec fn moved(w: Walk, map: Seq<Region>, d: Seq<u8>) -> (Stage, Trail) {
    match w.stage {
        Stage::Signature => if d.take(8) == RSDP_SIGNATURE@ {
            (Stage::Revision, silent())
        } else {
            stopped(Note::BadSignature)
        },
        Stage::Revision => if d[0] >= 2 {
            (Stage::Root { wide: true }, noted(Note::Revision2))
        } else {
            (Stage::Root { wide: false }, noted(Note::Revision01))
        },
        Stage::Root { wide } => {
            let sdt = entry_value(d, wide) as u64;
            if ram_holds(map, sdt as int, HEADER_BYTES as int) {
                (Stage::Length { wide, sdt }, silent())
            } else {
                stopped(Note::SdtNotInRam { at: sdt })
            }
        },
        Stage::Length { wide, sdt } => {
            let len = le32(d) as u64;
            if !(HEADER_BYTES <= len <= LONGEST_TABLE) {
                stopped(Note::LengthInsane { len })
            } else if !ram_holds(map, sdt as int, len as int) {
                stopped(Note::TableCrosses)
            } else {
                onward(wide, sdt, len, HEADER_BYTES, None)
            }
        },
        Stage::Entry { wide, sdt, len, off } => {
            let table = entry_value(d, wide) as u64;
            let next = (off + entry_bytes(wide)) as u64;
            if table == 0 {
                onward(wide, sdt, len, next, None)
            } else if !ram_holds(map, table as int, HPET_BYTES as int) {
                onward(wide, sdt, len, next, Some(Note::EntrySkipped { at: table }))
            } else {
                (Stage::Name { wide, sdt, len, off: next, table }, silent())
            }
        },
        Stage::Name { wide, sdt, len, off, table } => {
            let name = [graphic(d[0]), graphic(d[1]), graphic(d[2]), graphic(d[3])];
            if shown_name(d) == HPET_SIGNATURE@ {
                (Stage::Space { table }, noted(Note::Table { name }))
            } else {
                onward(wide, sdt, len, off, Some(Note::Table { name }))
            }
        },
        Stage::Space { table } => if d[0] == 0 {
            (Stage::Base { table }, silent())
        } else {
            stopped(Note::SpaceNotMemory)
        },
        Stage::Base { table } => {
            let base = le64(d) as u64;
            if map_holds(map, base as int, REGISTER_BYTES as int) {
                (
                    Stage::Done { registers: Some(virt(base as int, w.hhdm)) },
                    Trail {
                        first: Some(Note::Registers { at: base }),
                        second: Some(Note::RiskPoint),
                    },
                )
            } else {
                (
                    Stage::Done { registers: None },
                    Trail {
                        first: Some(Note::Registers { at: base }),
                        second: Some(Note::RegistersNotMapped),
                    },
                )
            }
        },
        Stage::Done { registers } => (w.stage, silent()),
    }
}

/// Where a walk stands at its start: done already if the root pointer is not in
/// memory.
pub open spec fn started(rsdp: u64, hhdm: u64, map: Seq<Region>) -> (Stage, Trail) {
    if ram_holds(map, rsdp_phys(rsdp, hhdm) as int, RSDP_BYTES as int) {
        (Stage::Signature, noted(Note::Rsdp { at: rsdp }))
    } else {
        (
            Stage::Done { registers: None },
            Trail { first: Some(Note::Rsdp { at: rsdp }), second: Some(Note::RsdpNotInRam) },
        )
    }
}

/// Starts the walk for the HPET registers.
pub fn find_hpet(rsdp: u64, hhdm: u64, map: &RegionMap) -> (r: (Walk, Trail))
    requires
        map.wf(),
    ensures
        r.0.rsdp == rsdp,
        r.0.hhdm == hhdm,
        (r.0.stage, r.1) == started(rsdp, hhdm, map@),
        walk_wf(r.0, map@),
{
    let phys: u64 = rsdp.wrapping_sub(hhdm);
    let at = Note::Rsdp { at: rsdp };
    if in_ram(map, phys, RSDP_BYTES) {
        (Walk { rsdp, hhdm, stage: Stage::Signature }, Trail { first: Some(at), second: None })
    } else {
        (
            Walk { rsdp, hhdm, stage: Stage::Done { registers: None } },
            Trail { first: Some(at), second: Some(Note::RsdpNotInRam) },
        )
    }
}

impl Walk {
    /// What has to be read next, `None` once the walk is done.
    pub fn request(&self) -> (req: Option<ReadRequest>)
        ensures
            req is None <==> self.stage is Done,
            req matches Some(r) ==> r.vaddr == virt(wanted(*self).0, self.hhdm) && r.len == wanted(
                *self,
            ).1,
    {
        let root: u64 = self.rsdp.wrapping_sub(self.hhdm);
        match self.stage {
            Stage::Signature => Some(ReadRequest { vaddr: mirror(root, 0, self.hhdm), len: 8 }),
            Stage::Revision => Some(ReadRequest { vaddr: mirror(root, 15, self.hhdm), len: 1 }),
            Stage::Root { wide } => if wide {
                Some(ReadRequest { vaddr: mirror(root, 24, self.hhdm), len: 8 })
            } else {
                Some(ReadRequest { vaddr: mirror(root, 16, self.hhdm), len: 4 })
            },
            Stage::Length { wide: _, sdt } => Some(
                ReadRequest { vaddr: mirror(sdt, 4, self.hhdm), len: 4 },
            ),
            Stage::Entry { wide, sdt, len: _, off } => Some(
                ReadRequest {
                    vaddr: mirror(sdt, off, self.hhdm),
                    len: if wide {
                        8
                    } else {
                        4
                    },
                },
            ),
            Stage::Name { wide: _, sdt: _, len: _, off: _, table } => Some(
                ReadRequest { vaddr: mirror(table, 0, self.hhdm), len: 4 },
            ),
            Stage::Space { table } => Some(
                ReadRequest { vaddr: mirror(table, 40, self.hhdm), len: 1 },
            ),
            Stage::Base { table } => Some(
                ReadRequest { vaddr: mirror(table, 48, self.hhdm), len: 8 },
            ),
            Stage::Done { registers: _ } => None,
        }
    }

    /// Takes the bytes that were read, at the front of `d`, and goes on.
    pub fn advance(&mut self, map: &RegionMap, d: &[u8; 8]) -> (trail: Trail)
        requires
            map.wf(),
            walk_wf(*old(self), map@),
        ensures
            walk_wf(*final(self), map@),
            final(self).rsdp == old(self).rsdp,
            final(self).hhdm == old(self).hhdm,
            (final(self).stage, trail) == moved(*old(self), map@, d@),
    {
        match self.stage {
            Stage::Signature => {
                if is_rsdp(d) {
                    self.stage = Stage::Revision;
                    Trail { first: None, second: None }
                } else {
                    self.stop(Note::BadSignature)
                }
            },
            Stage::Revision => {
                if read_u8(d) >= 2 {
                    self.stage = Stage::Root { wide: true };
                    Trail { first: Some(Note::Revision2), second: None }
                } else {
                    self.stage = Stage::Root { wide: false };
                    Trail { first: Some(Note::Revision01), second: None }
                }
            },
            Stage::Root { wide } => {
                let sdt: u64 = if wide {
                    read_u64(d)
                } else {
                    read_u32(d) as u64
                };
                if !in_ram(map, sdt, HEADER_BYTES) {
                    return self.stop(Note::SdtNotInRam { at: sdt });
                }
                self.stage = Stage::Length { wide, sdt };
                Trail { first: None, second: None }
            },
            Stage::Length { wide, sdt } => {
                let len: u64 = read_u32(d) as u64;
                if len < HEADER_BYTES || len > LONGEST_TABLE {
                    return self.stop(Note::LengthInsane { len });
                }
                if !in_ram(map, sdt, len) {
                    return self.stop(Note::TableCrosses);
                }
                self.go_on(wide, sdt, len, HEADER_BYTES, None)
            },
            Stage::Entry { wide, sdt, len, off } => {
                let table: u64 = if wide {
                    read_u64(d)
                } else {
                    read_u32(d) as u64
                };
                let next: u64 = if wide {
                    off + 8
                } else {
                    off + 4
                };
                if table == 0 {
                    return self.go_on(wide, sdt, len, next, None);
                }
                if !in_ram(map, table, HPET_BYTES) {
                    return self.go_on(wide, sdt, len, next, Some(Note::EntrySkipped { at: table }));
                }
                self.stage = Stage::Name { wide, sdt, len, off: next, table };
                Trail { first: None, second: None }
            },
            Stage::Name { wide, sdt, len, off, table } => {
                let name: [u8; 4] = name_of(d);
                assert(name@ =~= shown_name(d@));
                let note = Note::Table { name };
                if is_hpet(&name) {
                    self.stage = Stage::Space { table };
                    return Trail { first: Some(note), second: None };
                }
                self.go_on(wide, sdt, len, off, Some(note))
            },
            Stage::Space { table } => {
                if read_u8(d) != 0 {
                    return self.stop(Note::SpaceNotMemory);
                }
                self.stage = Stage::Base { table };
                Trail { first: None, second: None }
            },
            Stage::Base { table: _ } => {
                let base: u64 = read_u64(d);
                let at = Note::Registers { at: base };
                if !in_map(map, base, REGISTER_BYTES) {
                    self.stage = Stage::Done { registers: None };
                    return Trail { first: Some(at), second: Some(Note::RegistersNotMapped) };
                }
                self.stage = Stage::Done { registers: Some(base.wrapping_add(self.hhdm)) };
                Trail { first: Some(at), second: Some(Note::RiskPoint) }
            },
            Stage::Done { registers: _ } => Trail { first: None, second: None },
        }
    }

    /// Ends the walk without result.
    fn stop(&mut self, n: Note) -> (trail: Trail)
        ensures
            final(self).rsdp == old(self).rsdp,
            final(self).hhdm == old(self).hhdm,
            (final(self).stage, trail) == stopped(n),
    {
        self.stage = Stage::Done { registers: None };
        Trail { first: Some(n), second: None }
    }

    /// Goes on to the next address in the root table.
    fn go_on(&mut self, wide: bool, sdt: u64, len: u64, off: u64, note: Option<Note>) -> (trail:
        Trail)
        requires
            len <= LONGEST_TABLE,
            off <= len,
        ensures
            final(self).rsdp == old(self).rsdp,
            final(self).hhdm == old(self).hhdm,
            (final(self).stage, trail) == onward(wide, sdt, len, off, note),
    {
        let step: u64 = if wide {
            8
        } else {
            4
        };
        if off + step <= len {
            self.stage = Stage::Entry { wide, sdt, len, off };
            Trail { first: note, second: None }
        } else {
            self.stage = Stage::Done { registers: None };
            match note {
                Some(n) => Trail { first: Some(n), second: Some(Note::NoHpet) },
                None => Trail { first: Some(Note::NoHpet), second: None },
            }
        }
    }
}

/// Where the mirror of the address `off` after `phys` lies.
fn mirror(phys: u64, off: u64, hhdm: u64) -> (vaddr: u64)
    ensures
        vaddr == virt(phys + off, hhdm),
{
    phys.wrapping_add(hhdm).wrapping_add(off)
}

/// Whether eight bytes are the signature of a root pointer.
fn is_rsdp(d: &[u8; 8]) -> (yes: bool)
    ensures
        yes == (d@.take(8) == RSDP_SIGNATURE@),
{
    let mut i: usize = 0;
    while i < 8
        invariant
            i <= 8,
            forall|j: int| 0 <= j < i ==> d@[j] == RSDP_SIGNATURE@[j],
        decreases 8 - i,
    {
        if d[i] != RSDP_SIGNATURE[i] {
            assert(d@.take(8)[i as int] != RSDP_SIGNATURE@[i as int]);
            return false;
        }
        i = i + 1;
    }
    assert(d@.take(8) =~= RSDP_SIGNATURE@);
    true
}

/// Whether four bytes are the signature of the HPET table.
fn is_hpet(name: &[u8; 4]) -> (yes: bool)
    ensures
        yes == (name@ == HPET_SIGNATURE@),
{
    let mut i: usize = 0;
    while i < 4
        invariant
            i <= 4,
            forall|j: int| 0 <= j < i ==> name@[j] == HPET_SIGNATURE@[j],
        decreases 4 - i,
    {
        if name[i] != HPET_SIGNATURE[i] {
            assert(name@[i as int] != HPET_SIGNATURE@[i as int]);
            return false;
        }
        i = i + 1;
    }
    assert(name@ =~= HPET_SIGNATURE@);
    true
}

/// The name of a table as it is shown.
fn name_of(d: &[u8; 8]) -> (name: [u8; 4])
    ensures
        name == [graphic(d@[0]), graphic(d@[1]), graphic(d@[2]), graphic(d@[3])],
{
    [graphic_char(d[0]), graphic_char(d[1]), graphic_char(d[2]), graphic_char(d[3])]
}

/// A character of a table's name as it is shown.
fn graphic_char(b: u8) -> (c: u8)
    ensures
        c == graphic(b),
{
    if 0x21 <= b && b <= 0x7E {
        b
    } else {
        0x3F
    }
}

/// The memory of the machine: the byte at each address.
pub type Memory = spec_fn(u64) -> u8;

/// Eight bytes of memory from the mirror of a physical address on.
pub open spec fn bytes_at(mem: Memory, phys: int, hhdm: u64) -> Seq<u8> {
    Seq::new(8, |i: int| mem(virt(phys + i, hhdm)))
}

/// The register address that an HPET table gives: none if its address is not one
/// of memory, or lies outside the memory map.
pub open spec fn registers_of(mem: Memory, map: Seq<Region>, hhdm: u64, table: u64) -> Option<u64> {
    let base = le64(bytes_at(mem, table + 48, hhdm));
    if bytes_at(mem, table + 40, hhdm)[0] == 0 && map_holds(map, base, REGISTER_BYTES as int) {
        Some(virt(base, hhdm))
    } else {
        None
    }
}

/// Whether there is an HPET table at a physical address: the address is not zero,
/// the table is in memory and has the right name.
pub open spec fn hpet_at(mem: Memory, map: Seq<Region>, hhdm: u64, table: u64) -> bool {
    &&& table != 0
    &&& ram_holds(map, table as int, HPET_BYTES as int)
    &&& bytes_at(mem, table as int, hhdm).take(4) == HPET_SIGNATURE@
}

/// The address at offset `off` of the root table.
pub open spec fn entry_at(mem: Memory, hhdm: u64, wide: bool, sdt: u64, off: u64) -> u64 {
    entry_value(bytes_at(mem, sdt + off, hhdm), wide) as u64
}

/// What the addresses of the root table from offset `off` on lead to: the
/// registers of the first HPET table among them.
pub open spec fn among(
    mem: Memory,
    map: Seq<Region>,
    hhdm: u64,
    wide: bool,
    sdt: u64,
    len: u64,
    off: u64,
) -> Option<u64>
    decreases len - off,
{
    if off + entry_bytes(wide) > len {
        None
    } else {
        let table = entry_at(mem, hhdm, wide, sdt, off);
        if hpet_at(mem, map, hhdm, table) {
            registers_of(mem, map, hhdm, table)
        } else {
            among(mem, map, hhdm, wide, sdt, len, (off + entry_bytes(wide)) as u64)
        }
    }
}

/// What a root table leads to: it and its header are in memory, and its length is
/// believable.
pub open spec fn from_root(
    mem: Memory,
    map: Seq<Region>,
    hhdm: u64,
    wide: bool,
    sdt: u64,
) -> Option<u64> {
    let len = le32(bytes_at(mem, sdt + 4, hhdm)) as u64;
    if ram_holds(map, sdt as int, HEADER_BYTES as int) && HEADER_BYTES <= len <= LONGEST_TABLE
        && ram_holds(map, sdt as int, len as int) {
        among(mem, map, hhdm, wide, sdt, len, HEADER_BYTES)
    } else {
        None
    }
}

/// What a root pointer of known width leads to.
pub open spec fn from_pointer(
    mem: Memory,
    map: Seq<Region>,
    rsdp: u64,
    hhdm: u64,
    wide: bool,
) -> Option<u64> {
    let at = rsdp_phys(rsdp, hhdm) + if wide {
        24int
    } else {
        16
    };
    from_root(mem, map, hhdm, wide, entry_value(bytes_at(mem, at, hhdm), wide) as u64)
}

/// Where the HPET registers of a machine lie, as far as its tables tell and its
/// memory map vouches for them.
pub open spec fn hpet_registers(mem: Memory, map: Seq<Region>, rsdp: u64, hhdm: u64) -> Option<
    u64,
> {
    let root = rsdp_phys(rsdp, hhdm) as int;
    if ram_holds(map, root, RSDP_BYTES as int) && bytes_at(mem, root, hhdm) == RSDP_SIGNATURE@ {
        from_pointer(mem, map, rsdp, hhdm, bytes_at(mem, root + 15, hhdm)[0] >= 2)
    } else {
        None
    }
}

/// What is still ahead of a walk, as a number that every move lowers.
pub open spec fn ahead(stage: Stage) -> int {
    match stage {
        Stage::Signature => 2 * LONGEST_TABLE + 13,
        Stage::Revision => 2 * LONGEST_TABLE + 12,
        Stage::Root { wide } => 2 * LONGEST_TABLE + 11,
        Stage::Length { wide, sdt } => 2 * LONGEST_TABLE + 10,
        Stage::Entry { wide, sdt, len, off } => 2 * (len - off) + 4,
        Stage::Name { wide, sdt, len, off, table } => 2 * (len - off) + 5,
        Stage::Space { table } => 2,
        Stage::Base { table } => 1,
        Stage::Done { registers } => 0,
    }
}

/// What the rest of a walk leads to in a given memory.
pub open spec fn leads_to(w: Walk, map: Seq<Region>, mem: Memory) -> Option<u64> {
    match w.stage {
        Stage::Signature => if bytes_at(mem, rsdp_phys(w.rsdp, w.hhdm) as int, w.hhdm)
            == RSDP_SIGNATURE@ {
            from_pointer(
                mem,
                map,
                w.rsdp,
                w.hhdm,
                bytes_at(mem, rsdp_phys(w.rsdp, w.hhdm) + 15, w.hhdm)[0] >= 2,
            )
        } else {
            None
        },
        Stage::Revision => from_pointer(
            mem,
            map,
            w.rsdp,
            w.hhdm,
            bytes_at(mem, rsdp_phys(w.rsdp, w.hhdm) + 15, w.hhdm)[0] >= 2,
        ),
        Stage::Root { wide } => from_pointer(mem, map, w.rsdp, w.hhdm, wide),
        Stage::Length { wide, sdt } => from_root(mem, map, w.hhdm, wide, sdt),
        Stage::Entry { wide, sdt, len, off } => among(mem, map, w.hhdm, wide, sdt, len, off),
        Stage::Name { wide, sdt, len, off, table } => if bytes_at(mem, table as int, w.hhdm).take(4)
            == HPET_SIGNATURE@ {
            registers_of(mem, map, w.hhdm, table)
        } else {
            among(mem, map, w.hhdm, wide, sdt, len, off)
        },
        Stage::Space { table } => registers_of(mem, map, w.hhdm, table),
        Stage::Base { table } => {
            let base = le64(bytes_at(mem, table + 48, w.hhdm));
            if map_holds(map, base, REGISTER_BYTES as int) {
                Some(virt(base, w.hhdm))
            } else {
                None
            }
        },
        Stage::Done { registers } => registers,
    }
}

/// Whether `d` starts with the bytes that a walk wants, as they stand in memory.
pub open spec fn answers(w: Walk, mem: Memory, d: Seq<u8>) -> bool {
    &&& d.len() == 8
    &&& forall|i: int|
        0 <= i < wanted(w).1 ==> #[trigger] d[i] == bytes_at(mem, wanted(w).0, w.hhdm)[i]
}

/// A name is that of the HPET table exactly if it is shown as such.
proof fn lemma_shown_name(d: Seq<u8>)
    requires
        d.len() >= 4,
    ensures
        shown_name(d) == HPET_SIGNATURE@ <==> d.take(4) == HPET_SIGNATURE@,
{
    if shown_name(d) == HPET_SIGNATURE@ {
        assert(shown_name(d)[0] == 0x48 && shown_name(d)[1] == 0x50 && shown_name(d)[2] == 0x45
            && shown_name(d)[3] == 0x54);
        assert(d.take(4) =~= HPET_SIGNATURE@);
    }
    if d.take(4) == HPET_SIGNATURE@ {
        assert(d.take(4)[0] == 0x48 && d.take(4)[1] == 0x50 && d.take(4)[2] == 0x45 && d.take(4)[3]
            == 0x54);
        assert(shown_name(d) =~= HPET_SIGNATURE@);
    }
}

/// Numbers read from bytes fit their width.
proof fn lemma_le_range(d: Seq<u8>)
    ensures
        0 <= le32(d) <= u32::MAX,
        0 <= le64(d) <= u64::MAX,
{
}

/// Whether a move keeps what the walk leads to, and leaves less ahead.
pub open spec fn keeps_course(w: Walk, map: Seq<Region>, mem: Memory, d: Seq<u8>) -> bool {
    &&& leads_to(Walk { stage: moved(w, map, d).0, ..w }, map, mem) == leads_to(w, map, mem)
    &&& 0 <= ahead(moved(w, map, d).0) < ahead(w.stage)
}

/// A move from the signature or the revision keeps the course.
proof fn lemma_keeps_signature(w: Walk, map: Seq<Region>, mem: Memory, d: Seq<u8>)
    requires
        walk_wf(w, map),
        w.stage is Signature || w.stage is Revision,
        answers(w, mem, d),
    ensures
        keeps_course(w, map, mem, d),
{
    let b = bytes_at(mem, wanted(w).0, w.hhdm);
    assert(b.len() == 8);
    lemma_le_range(d);
    lemma_le_range(b);
    assert(d[0] == b[0]);
    if w.stage is Signature {
        assert(d =~= b);
        assert(d.take(8) =~= b);
    }
}

/// A move from the address of the root table keeps the course.
proof fn lemma_keeps_root(w: Walk, map: Seq<Region>, mem: Memory, d: Seq<u8>)
    requires
        walk_wf(w, map),
        w.stage is Root,
        answers(w, mem, d),
    ensures
        keeps_course(w, map, mem, d),
{
    let b = bytes_at(mem, wanted(w).0, w.hhdm);
    assert(b.len() == 8);
    lemma_le_range(d);
    lemma_le_range(b);
    assert(d[0] == b[0] && d[1] == b[1] && d[2] == b[2] && d[3] == b[3]);
    if w.stage->Root_wide {
        assert(d =~= b);
    }
}

/// A move from the length of the root table keeps the course.
proof fn lemma_keeps_length(w: Walk, map: Seq<Region>, mem: Memory, d: Seq<u8>)
    requires
        walk_wf(w, map),
        w.stage is Length,
        answers(w, mem, d),
    ensures
        keeps_course(w, map, mem, d),
{
    let b = bytes_at(mem, wanted(w).0, w.hhdm);
    assert(b.len() == 8);
    lemma_le_range(d);
    lemma_le_range(b);
    assert(d[0] == b[0] && d[1] == b[1] && d[2] == b[2] && d[3] == b[3]);
}

/// A move from an address in the root table keeps the course.
proof fn lemma_keeps_entry(w: Walk, map: Seq<Region>, mem: Memory, d: Seq<u8>)
    requires
        walk_wf(w, map),
        w.stage is Entry,
        answers(w, mem, d),
    ensures
        keeps_course(w, map, mem, d),
{
    let b = bytes_at(mem, wanted(w).0, w.hhdm);
    assert(b.len() == 8);
    lemma_le_range(d);
    lemma_le_range(b);
    assert(d[0] == b[0] && d[1] == b[1] && d[2] == b[2] && d[3] == b[3]);
    if let Stage::Entry { wide, sdt, len, off } = w.stage {
        if wide {
            assert(d =~= b);
        }
        let table = entry_at(mem, w.hhdm, wide, sdt, off);
        let next = (off + entry_bytes(wide)) as u64;
        let rest = among(mem, map, w.hhdm, wide, sdt, len, next);
        assert(entry_value(d, wide) as u64 == table);
        assert(among(mem, map, w.hhdm, wide, sdt, len, off) == if hpet_at(mem, map, w.hhdm, table) {
            registers_of(mem, map, w.hhdm, table)
        } else {
            rest
        });
        if next + entry_bytes(wide) > len {
            assert(rest is None);
        }
    }
}

/// A move from the name of a table keeps the course.
proof fn lemma_keeps_name(w: Walk, map: Seq<Region>, mem: Memory, d: Seq<u8>)
    requires
        walk_wf(w, map),
        w.stage is Name,
        answers(w, mem, d),
    ensures
        keeps_course(w, map, mem, d),
{
    let b = bytes_at(mem, wanted(w).0, w.hhdm);
    assert(b.len() == 8);
    lemma_le_range(d);
    lemma_le_range(b);
    assert(d.take(4) =~= b.take(4));
    lemma_shown_name(d);
}

/// A move inside the HPET table keeps the course.
proof fn lemma_keeps_base(w: Walk, map: Seq<Region>, mem: Memory, d: Seq<u8>)
    requires
        walk_wf(w, map),
        w.stage is Space || w.stage is Base,
        answers(w, mem, d),
    ensures
        keeps_course(w, map, mem, d),
{
    let b = bytes_at(mem, wanted(w).0, w.hhdm);
    assert(b.len() == 8);
    lemma_le_range(d);
    lemma_le_range(b);
    assert(d[0] == b[0]);
    if w.stage is Base {
        assert(d =~= b);
    }
}

/// A move that is given what memory holds keeps what the walk leads to, and
/// leaves less ahead.
pub proof fn lemma_move_keeps_course(w: Walk, map: Seq<Region>, mem: Memory, d: Seq<u8>)
    requires
        walk_wf(w, map),
        !(w.stage is Done),
        answers(w, mem, d),
    ensures
        keeps_course(w, map, mem, d),
{
    match w.stage {
        Stage::Signature | Stage::Revision => lemma_keeps_signature(w, map, mem, d),
        Stage::Root { .. } => lemma_keeps_root(w, map, mem, d),
        Stage::Length { .. } => lemma_keeps_length(w, map, mem, d),
        Stage::Entry { .. } => lemma_keeps_entry(w, map, mem, d),
        Stage::Name { .. } => lemma_keeps_name(w, map, mem, d),
        Stage::Space { .. } | Stage::Base { .. } => lemma_keeps_base(w, map, mem, d),
        Stage::Done { .. } => {},
    }
}

/// A walk to its end, each move given what memory holds.
pub open spec fn finished(w: Walk, map: Seq<Region>, mem: Memory, moves: nat) -> Walk
    decreases moves,
{
    if moves == 0 || w.stage is Done {
        w
    } else {
        let d = bytes_at(mem, wanted(w).0, w.hhdm);
        finished(Walk { stage: moved(w, map, d).0, ..w }, map, mem, (moves - 1) as nat)
    }
}

/// A move keeps the guards of a walk.
proof fn lemma_move_wf(w: Walk, map: Seq<Region>, d: Seq<u8>)
    requires
        walk_wf(w, map),
        d.len() == 8,
    ensures
        walk_wf(Walk { stage: moved(w, map, d).0, ..w }, map),
{
}

/// After as many moves as `ahead` counts, a walk is done and has what it leads to.
proof fn lemma_walk_ends(w: Walk, map: Seq<Region>, mem: Memory, moves: nat)
    requires
        walk_wf(w, map),
        ahead(w.stage) <= moves,
    ensures
        finished(w, map, mem, moves).stage == (Stage::Done { registers: leads_to(w, map, mem) }),
    decreases moves,
{
    if !(w.stage is Done) {
        let d = bytes_at(mem, wanted(w).0, w.hhdm);
        lemma_move_keeps_course(w, map, mem, d);
        lemma_move_wf(w, map, d);
        lemma_walk_ends(Walk { stage: moved(w, map, d).0, ..w }, map, mem, (moves - 1) as nat);
    }
}

/// The walk from the root pointer on ends, and it ends with the HPET registers
/// that the machine's tables and memory map give.
pub proof fn lemma_walk_finds_registers(
    mem: Memory,
    map: Seq<Region>,
    rsdp: u64,
    hhdm: u64,
    moves: nat,
)
    requires
        moves >= 2 * LONGEST_TABLE + 13,
    ensures
        finished(
            Walk { rsdp, hhdm, stage: started(rsdp, hhdm, map).0 },
            map,
            mem,
            moves,
        ).stage == (Stage::Done { registers: hpet_registers(mem, map, rsdp, hhdm) }),
{
    lemma_walk_ends(Walk { rsdp, hhdm, stage: started(rsdp, hhdm, map).0 }, map, mem, moves);
}

/// The root pointer is read at the address the loader gave.
pub proof fn lemma_root_pointer_mirror(rsdp: u64, hhdm: u64)
    ensures
        virt(rsdp_phys(rsdp, hhdm) as int, hhdm) == rsdp,
{
}

/// What the kernel knows of the tables: the addresses kept at boot, the address of
/// the timer's registers (zero before they are found), and whether the walk was
/// made.
pub struct Acpi {
    pub rsdp: u64,
    pub hhdm: u64,
    pub hpet_vbase: u64,
    pub probed: bool,
}

impl Acpi {
    /// Before anything is known.
    pub fn new() -> (acpi: Self)
        ensures
            acpi.rsdp == 0,
            acpi.hhdm == 0,
            acpi.hpet_vbase == 0,
            !acpi.probed,
    {
        Acpi { rsdp: 0, hhdm: 0, hpet_vbase: 0, probed: false }
    }
}

/// Keeps the two addresses for later; nothing is read at boot.
pub fn stash(acpi: &mut Acpi, rsdp: u64, hhdm: u64)
    ensures
        *final(acpi) == (Acpi { rsdp, hhdm, ..*old(acpi) }),
{
    acpi.rsdp = rsdp;
    acpi.hhdm = hhdm;
}

/// Starts the walk for the timer. Without a root pointer there is none.
pub fn probe(acpi: &Acpi, map: &RegionMap) -> (r: (Option<Walk>, Trail))
    requires
        map.wf(),
    ensures
        acpi.rsdp == 0 ==> r.0 is None && r.1 == noted(Note::NoRsdp),
        acpi.rsdp != 0 ==> {
            &&& r.0 is Some
            &&& r.0->0.rsdp == acpi.rsdp
            &&& r.0->0.hhdm == acpi.hhdm
            &&& (r.0->0.stage, r.1) == started(acpi.rsdp, acpi.hhdm, map@)
            &&& walk_wf(r.0->0, map@)
        },
{
    if acpi.rsdp == 0 {
        return (None, Trail { first: Some(Note::NoRsdp), second: None });
    }
    let (walk, trail) = find_hpet(acpi.rsdp, acpi.hhdm, map);
    (Some(walk), trail)
}

/// Keeps what a walk has found; an earlier find stays if this one found nothing.
pub fn probe_done(acpi: &mut Acpi, registers: Option<u64>)
    ensures
        final(acpi).rsdp == old(acpi).rsdp,
        final(acpi).hhdm == old(acpi).hhdm,
        final(acpi).hpet_vbase == match registers {
            Some(vbase) => vbase,
            None => old(acpi).hpet_vbase,
        },
        final(acpi).probed,
{
    if let Some(vbase) = registers {
        acpi.hpet_vbase = vbase;
    }
    acpi.probed = true;
}

/// The address of the configuration register, once the registers are found.
pub open spec fn config_at(acpi: Acpi) -> Option<u64> {
    if acpi.hpet_vbase == 0 {
        None
    } else {
        Some(((acpi.hpet_vbase + REG_GENERAL_CONFIG) % address_space()) as u64)
    }
}

/// The address of the configuration register, once the registers are found.
pub fn config_register(acpi: &Acpi) -> (reg: Option<u64>)
    ensures
        reg == config_at(*acpi),
{
    if acpi.hpet_vbase == 0 {
        None
    } else {
        Some(acpi.hpet_vbase.wrapping_add(REG_GENERAL_CONFIG))
    }
}

/// Whether a configuration routes the timer over the old clock line.
pub open spec fn routed(cfg: u64) -> bool {
    cfg / 2 % 2 == 1
}

/// Whether the timer is routed over the old clock line, given its configuration;
/// `None` while its registers have not been found.
pub fn legacy_route(acpi: &Acpi, cfg: u64) -> (route: Option<bool>)
    ensures
        route == if acpi.hpet_vbase == 0 {
            None
        } else {
            Some(routed(cfg))
        },
{
    if acpi.hpet_vbase == 0 {
        return None;
    }
    assert((cfg & 0x2 != 0) == (cfg / 2 % 2 == 1)) by (bit_vector);
    Some(cfg & LEG_RT_CNF != 0)
}

/// What the request to clear the routing bit comes to: a refusal, or the register
/// that has to be read.
pub enum ClearStep {
    Refused { note: Note },
    Read { reg: u64 },
}

/// Takes the request to clear the routing bit. The walk must have been made and
/// must have found the registers.
pub fn try_clear(acpi: &Acpi) -> (step: ClearStep)
    ensures
        step == if !acpi.probed {
            ClearStep::Refused { note: Note::ProbeFirst }
        } else {
            match config_at(*acpi) {
                None => ClearStep::Refused { note: Note::NothingToClear },
                Some(reg) => ClearStep::Read { reg },
            }
        },
{
    if !acpi.probed {
        return ClearStep::Refused { note: Note::ProbeFirst };
    }
    match config_register(acpi) {
        None => ClearStep::Refused { note: Note::NothingToClear },
        Some(reg) => ClearStep::Read { reg },
    }
}

/// What the configuration says to the request: nothing is done if the bit is
/// clear already.
pub fn clear_verdict(cfg: u64) -> (note: Note)
    ensures
        note == if routed(cfg) {
            Note::Clearing
        } else {
            Note::AlreadyClear
        },
{
    assert((cfg & 0x2 != 0) == (cfg / 2 % 2 == 1)) by (bit_vector);
    if cfg & LEG_RT_CNF != 0 {
        Note::Clearing
    } else {
        Note::AlreadyClear
    }
}

/// A configuration with the routing bit clear.
pub fn cleared_config(cfg: u64) -> (cleared: u64)
    ensures
        !routed(cleared),
        cleared == if routed(cfg) {
            (cfg - 2) as u64
        } else {
            cfg
        },
{
    assert((cfg & !0x2u64) == if cfg / 2 % 2 == 1 {
        (cfg - 2) as u64
    } else {
        cfg
    }) by (bit_vector);
    assert((cfg & !0x2u64) / 2 % 2 == 0) by (bit_vector);
    cfg & !LEG_RT_CNF
}

/// Whether the first four bytes of `d` are those of a 32-bit number, lowest first.
pub open spec fn holds_u32(d: Seq<u8>, a: u32) -> bool {
    &&& d.len() == 8
    &&& d[0] == a % 0x100
    &&& d[1] == a / 0x100 % 0x100
    &&& d[2] == a / 0x1_0000 % 0x100
    &&& d[3] == a / 0x100_0000
}

/// Whether the bytes of `d` are those of a 64-bit number, lowest first.
pub open spec fn holds_u64(d: Seq<u8>, a: u64) -> bool {
    let high = a / 0x1_0000_0000;
    &&& holds_u32(d, (a % 0x1_0000_0000) as u32)
    &&& d[4] == high % 0x100
    &&& d[5] == high / 0x100 % 0x100
    &&& d[6] == high / 0x1_0000 % 0x100
    &&& d[7] == high / 0x100_0000
}

/// Every 32-bit number is what its four bytes are read as, and every four bytes are
/// read as d0 + 256 d1 + 65536 d2 + 16777216 d3.
pub proof fn lemma_four_bytes(d: Seq<u8>, a: u32)
    ensures
        holds_u32(d, a) ==> le32(d) == a,
        le32(d) == d[0] + 256 * d[1] + 65536 * d[2] + 16777216 * d[3],
{
}

/// A 32-bit number is the sum of its four bytes at their places.
proof fn lemma_split(a: int)
    requires
        0 <= a < 0x1_0000_0000,
    ensures
        a == a % 0x100 + 0x100 * (a / 0x100 % 0x100) + 0x1_0000 * (a / 0x1_0000 % 0x100)
            + 0x100_0000 * (a / 0x100_0000),
{
}

/// Every 64-bit number is what its eight bytes are read as.
pub proof fn lemma_eight_bytes(d: Seq<u8>, a: u64)
    ensures
        holds_u64(d, a) ==> le64(d) == a,
        le64(d) == d[0] + 256 * d[1] + 65536 * d[2] + 16777216 * d[3] + 4294967296 * (d[4] + 256
            * d[5] + 65536 * d[6] + 16777216 * d[7]),
{
    if holds_u64(d, a) {
        let low = (a % 0x1_0000_0000) as u32;
        let high = a / 0x1_0000_0000;
        lemma_four_bytes(d, low);
        lemma_split(high as int);
        assert(a == low + 0x1_0000_0000 * high);
    }
}

/// In a table of 32-bit addresses the root table's address and every entry are the
/// full four bytes d0 + 256 d1 + 65536 d2 + 16777216 d3: the walk goes on to just
/// that address if the map vouches for it, and says just that address if not.
pub proof fn lemma_narrow_addresses(w: Walk, map: Seq<Region>, d: Seq<u8>)
    requires
        d.len() == 8,
    ensures
        ({
            let a = d[0] + 256 * d[1] + 65536 * d[2] + 16777216 * d[3];
            &&& w.stage == (Stage::Root { wide: false }) ==> moved(w, map, d) == (if ram_holds(
                map,
                a,
                36,
            ) {
                (Stage::Length { wide: false, sdt: a as u64 }, Trail { first: None, second: None })
            } else {
                (
                    Stage::Done { registers: None },
                    Trail { first: Some(Note::SdtNotInRam { at: a as u64 }), second: None },
                )
            })
            &&& w.stage matches Stage::Entry { wide: false, sdt, len, off } ==> a != 0 && off + 4
                <= u64::MAX && ram_holds(map, a, 56) ==> moved(w, map, d) == (
                Stage::Name { wide: false, sdt, len, off: (off + 4) as u64, table: a as u64 },
                Trail { first: None, second: None },
            )
            &&& 0 <= a <= u32::MAX
        }),
{
}

/// For every address whose bytes stand in the root pointer, or in an entry of the root
/// table, and which the map vouches for, the walk goes on to that very address.
pub proof fn lemma_every_address_is_reached(
    w: Walk,
    map: Seq<Region>,
    d: Seq<u8>,
    a: u64,
    wide: bool,
    sdt: u64,
    len: u64,
    off: u64,
)
    requires
        wide ==> holds_u64(d, a),
        !wide ==> a <= u32::MAX && holds_u32(d, a as u32),
    ensures
        w.stage == (Stage::Root { wide }) && ram_holds(map, a as int, 36) ==> moved(w, map, d).0
            == (Stage::Length { wide, sdt: a }),
        w.stage == (Stage::Entry { wide, sdt, len, off }) && off <= 0x2000 && a != 0 && ram_holds(
            map,
            a as int,
            56,
        ) ==> moved(w, map, d).0 == (Stage::Name {
            wide,
            sdt,
            len,
            off: (off + if wide {
                8int
            } else {
                4
            }) as u64,
            table: a,
        }),
{
    if wide {
        lemma_eight_bytes(d, a);
    } else {
        lemma_four_bytes(d, a as u32);
    }
}

/// In a table of 64-bit addresses the root table's address and every entry are the
/// full eight bytes.
pub proof fn lemma_wide_addresses(w: Walk, map: Seq<Region>, d: Seq<u8>)
    requires
        d.len() == 8,
    ensures
        ({
            let a = d[0] + 256 * d[1] + 65536 * d[2] + 16777216 * d[3] + 4294967296 * (d[4] + 256
                * d[5] + 65536 * d[6] + 16777216 * d[7]);
            &&& w.stage == (Stage::Root { wide: true }) ==> moved(w, map, d) == (if ram_holds(
                map,
                a,
                36,
            ) {
                (Stage::Length { wide: true, sdt: a as u64 }, Trail { first: None, second: None })
            } else {
                (
                    Stage::Done { registers: None },
                    Trail { first: Some(Note::SdtNotInRam { at: a as u64 }), second: None },
                )
            })
            &&& w.stage matches Stage::Entry { wide: true, sdt, len, off } ==> a != 0 && off + 8
                <= u64::MAX && ram_holds(map, a, 56) ==> moved(w, map, d) == (
                Stage::Name { wide: true, sdt, len, off: (off + 8) as u64, table: a as u64 },
                Trail { first: None, second: None },
            )
            &&& 0 <= a <= u64::MAX
        }),
{
    lemma_eight_bytes(d, 0);
    lemma_le_range(d);
}

/// What an entry that leads nowhere does: an empty one is passed over in silence, one
/// outside memory is said and passed over, and behind the last one the walk ends
/// saying that there is no timer.
pub proof fn lemma_entries_that_lead_nowhere(
    w: Walk,
    map: Seq<Region>,
    d: Seq<u8>,
    wide: bool,
    sdt: u64,
    len: u64,
    off: u64,
)
    requires
        d.len() == 8,
        w.stage == (Stage::Entry { wide, sdt, len, off }),
        off <= 0x2000,
    ensures
        ({
            let size = if wide {
                8int
            } else {
                4
            };
            let low = d[0] + 256 * d[1] + 65536 * d[2] + 16777216 * d[3];
            let high = d[4] + 256 * d[5] + 65536 * d[6] + 16777216 * d[7];
            let a = if wide {
                low + 4294967296 * high
            } else {
                low
            };
            let next = (off + size) as u64;
            &&& a == 0 || !ram_holds(map, a, 56) ==> {
                let note = if a == 0 {
                    None
                } else {
                    Some(Note::EntrySkipped { at: a as u64 })
                };
                if next + size <= len {
                    moved(w, map, d) == (
                        Stage::Entry { wide, sdt, len, off: next },
                        Trail { first: note, second: None },
                    )
                } else {
                    &&& moved(w, map, d).0 == (Stage::Done { registers: None })
                    &&& a == 0 ==> moved(w, map, d).1 == (Trail {
                        first: Some(Note::NoHpet),
                        second: None,
                    })
                    &&& a != 0 ==> moved(w, map, d).1 == (Trail {
                        first: note,
                        second: Some(Note::NoHpet),
                    })
                }
            }
        }),
{
    lemma_eight_bytes(d, 0);
    lemma_le_range(d);
}

/// The start of the walk: only a root pointer that bears the eight characters of its
/// name is followed, and its revision alone decides how wide addresses are.
pub proof fn lemma_root_pointer_is_checked(w: Walk, map: Seq<Region>, d: Seq<u8>)
    requires
        d.len() == 8,
    ensures
        w.stage is Signature && d == seq!['R', 'S', 'D', ' ', 'P', 'T', 'R', ' '].map_values(
            |c: char| c as u8,
        ) ==> moved(w, map, d) == (Stage::Revision, Trail { first: None, second: None }),
        w.stage is Signature && d != seq!['R', 'S', 'D', ' ', 'P', 'T', 'R', ' '].map_values(
            |c: char| c as u8,
        ) ==> moved(w, map, d) == (
            Stage::Done { registers: None },
            Trail { first: Some(Note::BadSignature), second: None },
        ),
        w.stage is Revision && d[0] >= 2 ==> moved(w, map, d) == (
            Stage::Root { wide: true },
            Trail { first: Some(Note::Revision2), second: None },
        ),
        w.stage is Revision && d[0] < 2 ==> moved(w, map, d) == (
            Stage::Root { wide: false },
            Trail { first: Some(Note::Revision01), second: None },
        ),
{
    let name = seq!['R', 'S', 'D', ' ', 'P', 'T', 'R', ' '].map_values(|c: char| c as u8);
    assert(RSDP_SIGNATURE@ =~= name);
    assert(d.take(8) =~= d);
}

/// A root table is believed if its length is 36 to 8192 bytes and all of them are
/// memory; then its addresses, from offset 36 on, are looked at one by one.
pub proof fn lemma_root_table_is_checked(
    w: Walk,
    map: Seq<Region>,
    d: Seq<u8>,
    wide: bool,
    sdt: u64,
)
    requires
        d.len() == 8,
        w.stage == (Stage::Length { wide, sdt }),
    ensures
        ({
            let len = d[0] + 256 * d[1] + 65536 * d[2] + 16777216 * d[3];
            let size = if wide {
                8int
            } else {
                4
            };
            &&& len < 36 || len > 8192 ==> moved(w, map, d) == (
                Stage::Done { registers: None },
                Trail { first: Some(Note::LengthInsane { len: len as u64 }), second: None },
            )
            &&& 36 <= len <= 8192 && !ram_holds(map, sdt as int, len) ==> moved(w, map, d) == (
                Stage::Done { registers: None },
                Trail { first: Some(Note::TableCrosses), second: None },
            )
            &&& 36 <= len <= 8192 && ram_holds(map, sdt as int, len) && 36 + size <= len ==> moved(
                w,
                map,
                d,
            ) == (
                Stage::Entry { wide, sdt, len: len as u64, off: 36 },
                Trail { first: None, second: None },
            )
            &&& 36 <= len <= 8192 && ram_holds(map, sdt as int, len) && 36 + size > len ==> moved(
                w,
                map,
                d,
            ) == (
                Stage::Done { registers: None },
                Trail { first: Some(Note::NoHpet), second: None },
            )
        }),
{
}

/// Only the table whose name is the four characters HPET is opened; of any other the
/// name is said, with question marks for what is no graphic character, and the walk
/// goes on.
pub proof fn lemma_table_names(
    w: Walk,
    map: Seq<Region>,
    d: Seq<u8>,
    wide: bool,
    sdt: u64,
    len: u64,
    off: u64,
    table: u64,
    k: int,
)
    requires
        d.len() == 8,
        0 <= k < 4,
        w.stage == (Stage::Name { wide, sdt, len, off, table }),
        off <= 0x2000,
    ensures
        d[0] == 'H' as u8 && d[1] == 'P' as u8 && d[2] == 'E' as u8 && d[3] == 'T' as u8 ==> moved(
            w,
            map,
            d,
        ).0 == (Stage::Space { table }),
        d[0] != 'H' as u8 || d[1] != 'P' as u8 || d[2] != 'E' as u8 || d[3] != 'T' as u8 ==> moved(
            w,
            map,
            d,
        ).0 == if off + (if wide {
            8int
        } else {
            4
        }) <= len {
            Stage::Entry { wide, sdt, len, off }
        } else {
            Stage::Done { registers: None }
        },
        moved(w, map, d).1.first matches Some(Note::Table { name }) && (0x21 <= d[k] <= 0x7E
            ==> name@[k] == d[k]) && (!(0x21 <= d[k] <= 0x7E) ==> name@[k] == '?' as u8),
        moved(w, map, d).1.second == if moved(w, map, d).0 is Done {
            Some(Note::NoHpet)
        } else {
            None
        },
{
    lemma_shown_name(d);
    assert(d.take(4)[0] == d[0] && d.take(4)[1] == d[1] && d.take(4)[2] == d[2] && d.take(4)[3]
        == d[3]);
    if d[0] == 'H' as u8 && d[1] == 'P' as u8 && d[2] == 'E' as u8 && d[3] == 'T' as u8 {
        assert(d.take(4) =~= HPET_SIGNATURE@);
    }
    let name = [graphic(d[0]), graphic(d[1]), graphic(d[2]), graphic(d[3])];
    assert(name@[k] == graphic(d[k]));
}

/// The timer's table gives its registers if their address is one of memory and the
/// map vouches for all 4096 bytes of them; they are found at the mirror of that
/// address.
pub proof fn lemma_registers_are_checked(w: Walk, map: Seq<Region>, d: Seq<u8>, table: u64)
    requires
        d.len() == 8,
    ensures
        ({
            let base = d[0] + 256 * d[1] + 65536 * d[2] + 16777216 * d[3] + 4294967296 * (d[4] + 256
                * d[5] + 65536 * d[6] + 16777216 * d[7]);
            &&& w.stage == (Stage::Space { table }) && d[0] == 0 ==> moved(w, map, d) == (
                Stage::Base { table },
                Trail { first: None, second: None },
            )
            &&& w.stage == (Stage::Space { table }) && d[0] != 0 ==> moved(w, map, d) == (
                Stage::Done { registers: None },
                Trail { first: Some(Note::SpaceNotMemory), second: None },
            )
            &&& w.stage == (Stage::Base { table }) && !map_holds(map, base, 4096) ==> moved(
                w,
                map,
                d,
            ) == (
                Stage::Done { registers: None },
                Trail {
                    first: Some(Note::Registers { at: base as u64 }),
                    second: Some(Note::RegistersNotMapped),
                },
            )
            &&& w.stage == (Stage::Base { table }) && map_holds(map, base, 4096) ==> moved(
                w,
                map,
                d,
            ) == (
                Stage::Done {
                    registers: Some(((base + w.hhdm) % 0x1_0000_0000_0000_0000) as u64),
                },
                Trail {
                    first: Some(Note::Registers { at: base as u64 }),
                    second: Some(Note::RiskPoint),
                },
            )
        }),
{
    lemma_eight_bytes(d, 0);
    lemma_le_range(d);
}

/// What is read where: in the root pointer the name at its start, the revision at
/// offset 15 and the address at 16 or 24; in the root table the length at offset 4
/// and then the addresses; in the timer's table the name at its start, the kind of
/// address at offset 40 and the address at 48. All of it is read through the mirror.
pub proof fn lemma_what_is_read_where(w: Walk)
    ensures
        ({
            let root = (w.rsdp - w.hhdm) % 0x1_0000_0000_0000_0000;
            match w.stage {
                Stage::Signature => wanted(w) == (root, 8int),
                Stage::Revision => wanted(w) == (root + 15, 1int),
                Stage::Root { wide: false } => wanted(w) == (root + 16, 4int),
                Stage::Root { wide: true } => wanted(w) == (root + 24, 8int),
                Stage::Length { sdt, .. } => wanted(w) == (sdt + 4, 4int),
                Stage::Entry { wide: false, sdt, off, .. } => wanted(w) == (sdt + off, 4int),
                Stage::Entry { wide: true, sdt, off, .. } => wanted(w) == (sdt + off, 8int),
                Stage::Name { table, .. } => wanted(w) == (table as int, 4int),
                Stage::Space { table } => wanted(w) == (table + 40, 1int),
                Stage::Base { table } => wanted(w) == (table + 48, 8int),
                Stage::Done { .. } => true,
            }
        }),
        virt(wanted(w).0, w.hhdm) == (wanted(w).0 + w.hhdm) % 0x1_0000_0000_0000_0000,
{
}

/// A walk starts only if the 36 bytes of the root pointer are memory.
pub proof fn lemma_walk_starts_in_memory(rsdp: u64, hhdm: u64, map: Seq<Region>)
    ensures
        ({
            let root = (rsdp - hhdm) % 0x1_0000_0000_0000_0000;
            &&& ram_holds(map, root, 36) ==> started(rsdp, hhdm, map) == (
                Stage::Signature,
                Trail { first: Some(Note::Rsdp { at: rsdp }), second: None },
            )
            &&& !ram_holds(map, root, 36) ==> started(rsdp, hhdm, map) == (
                Stage::Done { registers: None },
                Trail { first: Some(Note::Rsdp { at: rsdp }), second: Some(Note::RsdpNotInRam) },
            )
        }),
{
}

/// A walk that is done stays where it is.
pub proof fn lemma_done_is_done(w: Walk, map: Seq<Region>, d: Seq<u8>)
    requires
        w.stage is Done,
    ensures
        moved(w, map, d) == (w.stage, Trail { first: None, second: None }),
{
}

/// The routing bit is bit 1 of the configuration, in the register sixteen bytes
/// after the first.
pub proof fn lemma_routing_bit(acpi: Acpi, cfg: u64)
    ensures
        routed(cfg) <==> cfg & 2 != 0,
        acpi.hpet_vbase == 0 <==> config_at(acpi) is None,
        acpi.hpet_vbase != 0 ==> config_at(acpi)->0 == (acpi.hpet_vbase + 16)
            % 0x1_0000_0000_0000_0000,
{
    assert((cfg & 2 != 0) == (cfg / 2 % 2 == 1)) by (bit_vector);
}

/// Notes that speak of an address or a length give it in full.
pub proof fn lemma_notes_give_the_numbers(n: u64, name: [u8; 4])
    ensures
        note_text(Note::Rsdp { at: n }) == "acpi: rsdp @".spec_bytes() + hex_text(n as nat)
            + "\n".spec_bytes(),
        note_text(Note::SdtNotInRam { at: n }) == "acpi: sdt ".spec_bytes() + hex_text(n as nat)
            + " not in RAM map, STOP\n".spec_bytes(),
        note_text(Note::LengthInsane { len: n }) == "acpi: table len ".spec_bytes() + hex_text(
            n as nat,
        ) + " insane, STOP\n".spec_bytes(),
        note_text(Note::EntrySkipped { at: n }) == "acpi: entry ".spec_bytes() + hex_text(n as nat)
            + " not in RAM map, skip\n".spec_bytes(),
        note_text(Note::Registers { at: n }) == "acpi: hpet regs @".spec_bytes() + hex_text(
            n as nat,
        ) + "\n".spec_bytes(),
        note_text(Note::Table { name }) == "acpi: ".spec_bytes() + name@ + "\n".spec_bytes(),
{
}

/// The notes without a number, word for word.
pub proof fn lemma_notes_word_for_word()
    ensures
        note_text(Note::NoRsdp) == "acpi: no rsdp from bootloader\n".spec_bytes(),
        note_text(Note::RsdpNotInRam) == "acpi: rsdp not in RAM map, STOP\n".spec_bytes(),
        note_text(Note::BadSignature) == "acpi: bad rsdp sig, STOP\n".spec_bytes(),
        note_text(Note::Revision2) == "acpi: rev 2+\n".spec_bytes(),
        note_text(Note::Revision01) == "acpi: rev 0/1\n".spec_bytes(),
        note_text(Note::TableCrosses) == "acpi: table crosses out of RAM, STOP\n".spec_bytes(),
        note_text(Note::SpaceNotMemory) == "acpi: hpet addr space != mem, STOP\n".spec_bytes(),
        note_text(Note::RegistersNotMapped)
            == "acpi: hpet regs not in memmap, too risky, STOP\n".spec_bytes(),
        note_text(Note::RiskPoint) == "acpi: reading hpet cfg (risk point)...\n".spec_bytes(),
        note_text(Note::NoHpet) == "acpi: no HPET table\n".spec_bytes(),
        note_text(Note::ProbeFirst) == "acpi: press H first\n".spec_bytes(),
        note_text(Note::NothingToClear) == "acpi: no hpet, nothing to clear\n".spec_bytes(),
        note_text(Note::AlreadyClear) == "acpi: L is already 0, nothing to clear\n".spec_bytes(),
        note_text(Note::Clearing) == "acpi: clearing LEG_RT_CNF...\n".spec_bytes(),
        note_text(Note::Cleared) == "acpi: cleared. watch T= go\n".spec_bytes(),
{
}

} // verus!
