//! What the screen says while the machine starts.

use crate::boot::{usable_total, FramebufferResponse, MemmapEntry, MemmapResponse};
#[allow(unused_imports)]
use crate::boot::{kind_text, usable_bytes};
use crate::console;
use crate::console::{pixel_size, print, say, say_hex, Console};
#[allow(unused_imports)]
use crate::console::{after_text, fits, hex_text, lemma_texts_join, ready, screen_of, ConsoleView};
use crate::font::Font;
use crate::mm::{init_shown, stats, Mm};
#[allow(unused_imports)]
use crate::mm::{
    bitmap_bytes, bitmap_text, built_for, frames_of, free_count, home_of, sane, snapshot,
};
use vstd::prelude::*;
#[allow(unused_imports)]
use vstd::string::StringSliceAdditionalSpecFns;

verus! {

/// What a section of the memory map is reported as.
pub open spec fn section_text(e: MemmapEntry) -> Seq<u8> {
    "  ".spec_bytes() + hex_text(e.base as nat) + " +".spec_bytes() + hex_text(e.length as nat)
        + " ".spec_bytes() + kind_text(e.kind).spec_bytes() + "\n".spec_bytes()
}

/// What the sections of the memory map are reported as.
pub open spec fn sections_text(entries: Seq<MemmapEntry>) -> Seq<u8>
    decreases entries.len(),
{
    if entries.len() == 0 {
        Seq::empty()
    } else {
        sections_text(entries.drop_last()) + section_text(entries.last())
    }
}

/// The report on the memory map: its sections, and how many MiB are usable.
pub open spec fn memory_text(entries: Seq<MemmapEntry>) -> Seq<u8> {
    "memory map:\n".spec_bytes() + sections_text(entries) + "usable total: ".spec_bytes()
        + hex_text((usable_bytes(entries) / 0x10_0000) as nat) + " MiB\n".spec_bytes()
}

/// Reports a section of the memory map.
fn report_section(con: &mut Option<Console>, e: &MemmapEntry)
    requires
        ready(*old(con)),
    ensures
        ready(*final(con)),
        screen_of(*final(con)) == after_text(screen_of(*old(con)), section_text(*e)),
{
    let ghost screen = screen_of(*con);
    let ghost t1 = "  ".spec_bytes();
    let ghost t2 = t1 + hex_text(e.base as nat);
    let ghost t3 = t2 + " +".spec_bytes();
    let ghost t4 = t3 + hex_text(e.length as nat);
    let ghost t5 = t4 + " ".spec_bytes();
    let ghost t6 = t5 + kind_text(e.kind).spec_bytes();
    print(con, "  ");
    say_hex(con, e.base, Ghost(screen), Ghost(t1));
    say(con, " +", Ghost(screen), Ghost(t2));
    say_hex(con, e.length, Ghost(screen), Ghost(t3));
    say(con, " ", Ghost(screen), Ghost(t4));
    say(con, e.kind_name(), Ghost(screen), Ghost(t5));
    say(con, "\n", Ghost(screen), Ghost(t6));
}

/// Reports the memory map.
pub fn report_memory(con: &mut Option<Console>, entries: &[MemmapEntry])
    requires
        ready(*old(con)),
        usable_bytes(entries@) <= u64::MAX,
    ensures
        ready(*final(con)),
        screen_of(*final(con)) == after_text(screen_of(*old(con)), memory_text(entries@)),
{
    let ghost screen = screen_of(*con);
    let ghost head = "memory map:\n".spec_bytes();
    print(con, "memory map:\n");
    let mut i: usize = 0;
    assert(head + sections_text(entries@.take(0)) =~= head);
    while i < entries.len()
        invariant
            i <= entries@.len(),
            ready(*con),
            screen_of(*con) == after_text(screen, head + sections_text(entries@.take(i as int))),
        decreases entries@.len() - i,
    {
        report_section(con, &entries[i]);
        proof {
            let before = sections_text(entries@.take(i as int));
            let line = section_text(entries@[i as int]);
            assert(entries@.take(i + 1).drop_last() =~= entries@.take(i as int));
            lemma_texts_join(screen, head + before, line);
            assert(head + before + line =~= head + (before + line));
        }
        i = i + 1;
    }
    assert(entries@.take(i as int) =~= entries@);
    let total: u64 = usable_total(entries);
    let ghost t1 = head + sections_text(entries@);
    let ghost t2 = t1 + "usable total: ".spec_bytes();
    let ghost t3 = t2 + hex_text((total / 0x10_0000) as nat);
    say(con, "usable total: ", Ghost(screen), Ghost(t1));
    say_hex(con, total / 1024 / 1024, Ghost(screen), Ghost(t2));
    say(con, " MiB\n", Ghost(screen), Ghost(t3));
}

/// What the screen says first.
pub open spec fn screen_text(width: int, height: int) -> Seq<u8> {
    "=== MOS booting ===\n".spec_bytes() + "screen up\n".spec_bytes() + "screen: ".spec_bytes()
        + hex_text(width as nat) + "x".spec_bytes() + hex_text(height as nat) + "\n".spec_bytes()
}

/// Sets the first screen up, given its pixel memory, and says its size. False means
/// that there is no screen.
pub fn screen_up<'a>(
    con: &mut Option<Console<'a>>,
    resp: Option<&FramebufferResponse>,
    memory: &'a mut [u8],
    font: Font<'a>,
) -> (up: bool)
    requires
        ready(*old(con)),
        resp matches Some(r) ==> r.framebuffers@.len() > 0 ==> {
            let fb = r.framebuffers@[0];
            &&& fb.width <= usize::MAX
            &&& fb.height <= usize::MAX
            &&& fb.pitch <= usize::MAX
            &&& fits(&fb, old(memory)@.len(), font@)
        },
    ensures
        ready(*final(con)),
        up == (resp is Some && resp->0.framebuffers@.len() > 0),
        !up ==> *final(con) == *old(con),
        up ==> {
            let fb = resp->0.framebuffers@[0];
            let blank = (ConsoleView {
                mem: old(memory)@,
                width: fb.width as int,
                height: fb.height as int,
                pitch: fb.pitch as int,
                cols: fb.width as int / font.width as int,
                rows: fb.height as int / font.height as int,
                col: 0,
                row: 0,
                fg: 0x00FFFFFF,
                bg: 0x00000000,
                font: font@,
            }).cleared();
            screen_of(*final(con)) == after_text(
                Some(blank),
                screen_text(fb.width as int, fb.height as int),
            )
        },
{
    let screens = match resp {
        Some(r) => r.framebuffers(),
        None => {
            return false;
        },
    };
    if screens.len() == 0 {
        return false;
    }
    console::init(con, &screens[0], memory, font);
    let (w, h) = pixel_size(con);
    let ghost screen = screen_of(*con);
    let ghost t1 = "=== MOS booting ===\n".spec_bytes();
    let ghost t2 = t1 + "screen up\n".spec_bytes();
    let ghost t3 = t2 + "screen: ".spec_bytes();
    let ghost t4 = t3 + hex_text(w as nat);
    let ghost t5 = t4 + "x".spec_bytes();
    let ghost t6 = t5 + hex_text(h as nat);
    print(con, "=== MOS booting ===\n");
    say(con, "screen up\n", Ghost(screen), Ghost(t1));
    say(con, "screen: ", Ghost(screen), Ghost(t2));
    say_hex(con, w as u64, Ghost(screen), Ghost(t3));
    say(con, "x", Ghost(screen), Ghost(t4));
    say_hex(con, h as u64, Ghost(screen), Ghost(t5));
    say(con, "\n", Ghost(screen), Ghost(t6));
    true
}

/// The report on the frames.
pub open spec fn frames_text(total: nat, free: nat) -> Seq<u8> {
    "mm up: ".spec_bytes() + hex_text(total) + " frames, ".spec_bytes() + hex_text(free)
        + " free\n".spec_bytes()
}

/// Reports the frames.
fn report_frames(con: &mut Option<Console>, total: u64, free: u64)
    requires
        ready(*old(con)),
    ensures
        ready(*final(con)),
        screen_of(*final(con)) == after_text(
            screen_of(*old(con)),
            frames_text(total as nat, free as nat),
        ),
{
    let ghost screen = screen_of(*con);
    let ghost t1 = "mm up: ".spec_bytes();
    let ghost t2 = t1 + hex_text(total as nat);
    let ghost t3 = t2 + " frames, ".spec_bytes();
    let ghost t4 = t3 + hex_text(free as nat);
    print(con, "mm up: ");
    say_hex(con, total, Ghost(screen), Ghost(t1));
    say(con, " frames, ", Ghost(screen), Ghost(t2));
    say_hex(con, free, Ghost(screen), Ghost(t3));
    say(con, " free\n", Ghost(screen), Ghost(t4));
}

/// What the screen says while memory management is set up.
pub open spec fn memory_up_text(entries: Seq<MemmapEntry>, free: nat) -> Seq<u8> {
    "hhdm ok\n".spec_bytes() + "mm init...\n".spec_bytes() + bitmap_text(entries)
        + if home_of(entries) is Some {
        frames_text(frames_of(entries) as nat, free)
    } else {
        "mm init FAILED!\n".spec_bytes()
    }
}

/// Sets memory management up and reports on it. False means that no section can
/// take the bitmap in.
pub fn memory_up<'a>(
    con: &mut Option<Console>,
    mm: &mut Mm<'a>,
    resp: &MemmapResponse,
    hhdm_offset: u64,
    storage: &'a mut [u8],
) -> (up: bool)
    requires
        ready(*old(con)),
        old(mm).wf(),
        sane(resp.entries@),
        home_of(resp.entries@) is Some ==> old(storage)@.len() == bitmap_bytes(
            frames_of(resp.entries@),
        ),
    ensures
        final(mm).wf(),
        final(mm).hhdm_offset == hhdm_offset,
        final(mm).regions@ == snapshot(resp.entries@),
        up == (home_of(resp.entries@) is Some),
        !up ==> final(mm).allocator == old(mm).allocator,
        up ==> final(mm).allocator is Some && built_for(final(mm).allocator->0, resp.entries@),
        ready(*final(con)),
        screen_of(*final(con)) == after_text(
            screen_of(*old(con)),
            memory_up_text(resp.entries@, free_count(final(mm).allocator->0@.free)),
        ),
{
    let ghost screen = screen_of(*con);
    let ghost t1 = "hhdm ok\n".spec_bytes();
    let ghost t2 = t1 + "mm init...\n".spec_bytes();
    let ghost t3 = t2 + bitmap_text(resp.entries@);
    print(con, "hhdm ok\n");
    say(con, "mm init...\n", Ghost(screen), Ghost(t1));
    let up: bool = init_shown(con, mm, resp, hhdm_offset, storage);
    proof {
        lemma_texts_join(screen, t2, bitmap_text(resp.entries@));
    }
    if up {
        let (total, free) = stats(mm);
        proof {
            lemma_texts_join(screen, t3, frames_text(total as nat, free as nat));
        }
        report_frames(con, total, free);
    } else {
        say(con, "mm init FAILED!\n", Ghost(screen), Ghost(t3));
    }
    up
}

/// A section is reported with its base, its length and the name of its kind, each in
/// full, and the sections one after the other.
pub proof fn lemma_sections_are_reported_in_full(
    a: Seq<MemmapEntry>,
    b: Seq<MemmapEntry>,
    e: MemmapEntry,
)
    ensures
        sections_text(a + b) == sections_text(a) + sections_text(b),
        sections_text(seq![e]) == section_text(e),
        section_text(e) == "  ".spec_bytes() + hex_text(e.base as nat) + " +".spec_bytes()
            + hex_text(e.length as nat) + " ".spec_bytes() + kind_text(e.kind).spec_bytes()
            + "\n".spec_bytes(),
        ({
            let base = hex_text(e.base as nat);
            let length = hex_text(e.length as nat);
            let name = kind_text(e.kind).spec_bytes();
            let t = section_text(e);
            let n = "  ".spec_bytes().len() as int;
            let m = " +".spec_bytes().len() as int;
            let k = " ".spec_bytes().len() as int;
            &&& t.subrange(n, n + base.len()) == base
            &&& t.subrange(n + base.len() + m, n + base.len() + m + length.len()) == length
            &&& t.subrange(
                n + base.len() + m + length.len() + k,
                n + base.len() + m + length.len() + k + name.len(),
            ) == name
            &&& t.len() == n + base.len() + m + length.len() + k + name.len()
                + "\n".spec_bytes().len()
        }),
    decreases b.len(),
{
    reveal_with_fuel(sections_text, 2);
    assert(seq![e].drop_last() =~= Seq::<MemmapEntry>::empty());
    assert(sections_text(seq![e]) =~= section_text(e));
    if b.len() == 0 {
        assert(a + b =~= a);
        assert(sections_text(a) + sections_text(b) =~= sections_text(a));
    } else {
        lemma_sections_are_reported_in_full(a, b.drop_last(), e);
        assert((a + b).drop_last() =~= a + b.drop_last());
        assert(sections_text(a + b) =~= sections_text(a) + sections_text(b));
    }
}

/// The report on the memory map ends with the usable bytes in whole MiB, behind all
/// sections; that on the frames gives both counts in full, and so does that on the
/// screen with its size.
pub proof fn lemma_reports_give_the_numbers(
    entries: Seq<MemmapEntry>,
    total: nat,
    free: nat,
    width: nat,
    height: nat,
)
    requires
        usable_bytes(entries) >= 0,
    ensures
        exists|mib: nat|
            mib * 1048576 <= usable_bytes(entries) < (mib + 1) * 1048576 && #[trigger] hex_text(mib)
                == memory_text(entries).subrange(
                memory_text(entries).len() - " MiB\n".spec_bytes().len() - hex_text(mib).len(),
                memory_text(entries).len() - " MiB\n".spec_bytes().len(),
            ),
        memory_text(entries).subrange(
            "memory map:\n".spec_bytes().len() as int,
            ("memory map:\n".spec_bytes().len() + sections_text(entries).len()) as int,
        ) == sections_text(entries),
        memory_text(entries) == "memory map:\n".spec_bytes() + sections_text(entries)
            + "usable total: ".spec_bytes() + hex_text((usable_bytes(entries) / 1048576) as nat)
            + " MiB\n".spec_bytes(),
        frames_text(total, free) == "mm up: ".spec_bytes() + hex_text(total)
            + " frames, ".spec_bytes() + hex_text(free) + " free\n".spec_bytes(),
        screen_text(width as int, height as int) == "=== MOS booting ===\n".spec_bytes()
            + "screen up\n".spec_bytes() + "screen: ".spec_bytes() + hex_text(width)
            + "x".spec_bytes() + hex_text(height) + "\n".spec_bytes(),
{
    let mib = (usable_bytes(entries) / 0x10_0000) as nat;
    let t = memory_text(entries);
    let end = t.len() - " MiB\n".spec_bytes().len();
    assert(t.subrange(end - hex_text(mib).len(), end) =~= hex_text(mib));
    assert(t.subrange(
        "memory map:\n".spec_bytes().len() as int,
        ("memory map:\n".spec_bytes().len() + sections_text(entries).len()) as int,
    ) =~= sections_text(entries));
}

/// While memory is set up the screen says in order that the mirror is known, how
/// the bitmap comes along, and how many frames there are, or that it failed.
pub proof fn lemma_memory_report(entries: Seq<MemmapEntry>, free: nat)
    ensures
        home_of(entries) is Some ==> memory_up_text(entries, free) == "hhdm ok\n".spec_bytes()
            + "mm init...\n".spec_bytes() + bitmap_text(entries) + frames_text(
            frames_of(entries) as nat,
            free,
        ),
        home_of(entries) is None ==> memory_up_text(entries, free) == "hhdm ok\n".spec_bytes()
            + "mm init...\n".spec_bytes() + bitmap_text(entries)
            + "mm init FAILED!\n".spec_bytes(),
{
}

} // verus!
