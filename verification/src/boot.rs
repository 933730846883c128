//! The Limine boot protocol: what the kernel asks the loader for, and the
//! answers as plain values.
//!
//! A request starts with the common magic and its own identifier; the loader
//! finds it by these four words and files its answer. Here an answer that has
//! not come is `None`.

use vstd::prelude::*;

verus! {

/// The two words every request starts with.
pub const COMMON_MAGIC: [u64; 2] = [0xc7b1dd30df4c8b88, 0x0a82e883a194f07b];

/// Identifier of the framebuffer request.
pub const FRAMEBUFFER_ID: [u64; 2] = [0x9d5827dcd881dd75, 0xa3148604f6fab11b];

/// Identifier of the memory map request.
pub const MEMMAP_ID: [u64; 2] = [0x67cf3d9d378a806f, 0xe304acdfc50c3c62];

/// Identifier of the direct map request.
pub const HHDM_ID: [u64; 2] = [0x48dcf1cb8ad2b852, 0x63984e959a98244b];

/// Asks for the screens.
pub struct FramebufferRequest<'a> {
    pub magic: [u64; 2],
    pub id: [u64; 2],
    pub revision: u64,
    pub response: Option<FramebufferResponse<'a>>,
}

impl<'a> FramebufferRequest<'a> {
    /// A request that has not been answered.
    pub fn new() -> (request: Self)
        ensures
            request.magic == COMMON_MAGIC,
            request.id == FRAMEBUFFER_ID,
            request.revision == 0,
            request.response is None,
    {
        FramebufferRequest { magic: COMMON_MAGIC, id: FRAMEBUFFER_ID, revision: 0, response: None }
    }

    /// The answer, once there is one.
    pub fn response(&self) -> (answer: Option<&FramebufferResponse<'a>>)
        ensures
            answer is Some <==> self.response is Some,
            answer is Some ==> *answer->0 == self.response->0,
    {
        match &self.response {
            Some(r) => Some(r),
            None => None,
        }
    }
}

/// The screens of the machine, mostly one.
pub struct FramebufferResponse<'a> {
    pub revision: u64,
    pub framebuffers: &'a [Framebuffer],
}

impl<'a> FramebufferResponse<'a> {
    /// All screens.
    pub fn framebuffers(&self) -> (screens: &'a [Framebuffer])
        ensures
            screens@ == self.framebuffers@,
    {
        self.framebuffers
    }
}

/// One screen: where its pixels lie, its size and its pixel format. A row of
/// pixels takes `pitch` bytes, which can be more than its pixels need.
#[derive(Clone, Copy)]
pub struct Framebuffer {
    pub address: u64,
    pub width: u64,
    pub height: u64,
    pub pitch: u64,
    pub bpp: u16,
    pub memory_model: u8,
    pub red_mask_size: u8,
    pub red_mask_shift: u8,
    pub green_mask_size: u8,
    pub green_mask_shift: u8,
    pub blue_mask_size: u8,
    pub blue_mask_shift: u8,
}

impl Framebuffer {
    /// Where the pixels start.
    pub fn address(&self) -> (address: u64)
        ensures
            address == self.address,
    {
        self.address
    }
}

/// Asks for the list of physical memory sections.
pub struct MemmapRequest<'a> {
    pub magic: [u64; 2],
    pub id: [u64; 2],
    pub revision: u64,
    pub response: Option<MemmapResponse<'a>>,
}

impl<'a> MemmapRequest<'a> {
    /// A request that has not been answered.
    pub fn new() -> (request: Self)
        ensures
            request.magic == COMMON_MAGIC,
            request.id == MEMMAP_ID,
            request.revision == 0,
            request.response is None,
    {
        MemmapRequest { magic: COMMON_MAGIC, id: MEMMAP_ID, revision: 0, response: None }
    }

    /// The answer, once there is one.
    pub fn response(&self) -> (answer: Option<&MemmapResponse<'a>>)
        ensures
            answer is Some <==> self.response is Some,
            answer is Some ==> *answer->0 == self.response->0,
    {
        match &self.response {
            Some(r) => Some(r),
            None => None,
        }
    }
}

/// The memory sections of the machine.
pub struct MemmapResponse<'a> {
    pub revision: u64,
    pub entries: &'a [MemmapEntry],
}

impl<'a> MemmapResponse<'a> {
    /// All sections, in the order of the loader's list.
    pub fn entries(&self) -> (entries: &'a [MemmapEntry])
        ensures
            entries@ == self.entries@,
    {
        self.entries
    }
}

/// One section of physical memory: `length` bytes from `base` on.
#[derive(Clone, Copy)]
pub struct MemmapEntry {
    pub base: u64,
    pub length: u64,
    pub kind: u64,
}

/// The section kind that means free memory.
pub const MEMMAP_USABLE: u64 = 0;

/// What a section kind is called.
pub open spec fn kind_text(kind: u64) -> &'static str {
    if kind == 0 {
        "usable"
    } else if kind == 1 {
        "reserved"
    } else if kind == 2 {
        "ACPI reclaimable"
    } else if kind == 3 {
        "ACPI NVS"
    } else if kind == 4 {
        "bad memory"
    } else if kind == 5 {
        "bootloader reclaimable"
    } else if kind == 6 {
        "kernel and modules"
    } else if kind == 7 {
        "framebuffer"
    } else {
        "unknown"
    }
}

impl MemmapEntry {
    /// The section's kind in words.
    pub fn kind_name(&self) -> (name: &'static str)
        ensures
            name@ == kind_text(self.kind)@,
    {
        match self.kind {
            0 => "usable",
            1 => "reserved",
            2 => "ACPI reclaimable",
            3 => "ACPI NVS",
            4 => "bad memory",
            5 => "bootloader reclaimable",
            6 => "kernel and modules",
            7 => "framebuffer",
            _ => "unknown",
        }
    }
}

/// How many bytes the usable ones among the sections hold together.
pub open spec fn usable_bytes(entries: Seq<MemmapEntry>) -> int
    decreases entries.len(),
{
    if entries.len() == 0 {
        0
    } else {
        usable_bytes(entries.drop_last()) + if entries.last().kind == MEMMAP_USABLE {
            entries.last().length as int
        } else {
            0
        }
    }
}

/// A longer list holds no fewer usable bytes.
proof fn lemma_usable_bytes_grow(entries: Seq<MemmapEntry>, n: int)
    requires
        0 <= n <= entries.len(),
    ensures
        usable_bytes(entries.take(n)) <= usable_bytes(entries),
    decreases entries.len() - n,
{
    if n < entries.len() {
        assert(entries.take(n + 1).drop_last() =~= entries.take(n));
        lemma_usable_bytes_grow(entries, n + 1);
    } else {
        assert(entries.take(n) =~= entries);
    }
}

/// Adds up the usable sections.
pub fn usable_total(entries: &[MemmapEntry]) -> (total: u64)
    requires
        usable_bytes(entries@) <= u64::MAX,
    ensures
        total == usable_bytes(entries@),
{
    let mut total: u64 = 0;
    let mut i: usize = 0;
    while i < entries.len()
        invariant
            i <= entries@.len(),
            usable_bytes(entries@) <= u64::MAX,
            total == usable_bytes(entries@.take(i as int)),
        decreases entries@.len() - i,
    {
        proof {
            assert(entries@.take(i + 1).drop_last() =~= entries@.take(i as int));
            lemma_usable_bytes_grow(entries@, i + 1);
        }
        if entries[i].kind == MEMMAP_USABLE {
            total = total + entries[i].length;
        }
        i = i + 1;
    }
    assert(entries@.take(i as int) =~= entries@);
    total
}

/// Asks for the offset at which physical memory is mirrored into the upper half
/// of the address space.
pub struct HhdmRequest {
    pub magic: [u64; 2],
    pub id: [u64; 2],
    pub revision: u64,
    pub response: Option<u64>,
}

impl HhdmRequest {
    /// A request that has not been answered.
    pub fn new() -> (request: Self)
        ensures
            request.magic == COMMON_MAGIC,
            request.id == HHDM_ID,
            request.revision == 0,
            request.response is None,
    {
        HhdmRequest { magic: COMMON_MAGIC, id: HHDM_ID, revision: 0, response: None }
    }

    /// The offset, once it is known.
    pub fn response(&self) -> (offset: Option<u64>)
        ensures
            offset == self.response,
    {
        self.response
    }
}

/// The usable bytes of two maps in a row add up, and a section alone counts with
/// its length if it is of kind zero and not at all otherwise.
pub proof fn lemma_usable_bytes_add_up(a: Seq<MemmapEntry>, b: Seq<MemmapEntry>, e: MemmapEntry)
    ensures
        usable_bytes(a + b) == usable_bytes(a) + usable_bytes(b),
        e.kind == 0 ==> usable_bytes(seq![e]) == e.length,
        e.kind != 0 ==> usable_bytes(seq![e]) == 0,
    decreases b.len(),
{
    reveal_with_fuel(usable_bytes, 2);
    assert(seq![e].drop_last() =~= Seq::<MemmapEntry>::empty());
    if b.len() == 0 {
        assert(a + b =~= a);
    } else {
        lemma_usable_bytes_add_up(a, b.drop_last(), e);
        assert((a + b).drop_last() =~= a + b.drop_last());
    }
}

/// Kinds past the known ones are all called unknown.
pub proof fn lemma_unknown_kinds(kind: u64)
    requires
        kind > 7,
    ensures
        kind_text(kind)@ == "unknown"@,
{
}

/// The names of the kinds zero to seven, in this order.
pub proof fn lemma_known_kinds(kind: u64)
    requires
        kind <= 7,
    ensures
        kind_text(kind)@ == seq![
            "usable"@,
            "reserved"@,
            "ACPI reclaimable"@,
            "ACPI NVS"@,
            "bad memory"@,
            "bootloader reclaimable"@,
            "kernel and modules"@,
            "framebuffer"@,
        ][kind as int],
{
}

} // verus!
