//! Segment descriptors. In 64-bit mode segments hardly matter; the table is needed
//! for valid selectors and to point at the task state segment.

use vstd::prelude::*;

verus! {

/// Selector of the code segment: row 1 of the table, eight bytes a row.
pub const KERNEL_CODE_SELECTOR: u16 = 0x08;

/// Selector of the data segment.
pub const KERNEL_DATA_SELECTOR: u16 = 0x10;

/// Selector of the task state segment.
pub const TSS_SELECTOR: u16 = 0x18;

/// Descriptor of the code segment: present, readable code, 64-bit.
pub const KERNEL_CODE_DESC: u64 = 0x00209A0000000000;

/// Descriptor of the data segment: present, writable data.
pub const KERNEL_DATA_DESC: u64 = 0x0000920000000000;

/// The task state segment: the stacks that the processor switches to when the
/// current one may be broken.
pub struct Tss {
    pub resvd0: u32,
    pub rsp: [u64; 3],
    pub resvd1: u64,
    pub ist: [u64; 7],
    pub resvd2: u32,
    pub resvd3: u16,
    pub iomap_base: u16,
}

impl Tss {
    /// No stack set. The permission map starts where the segment, `size` bytes
    /// long, ends, which means that there is none.
    pub fn empty(size: u16) -> (tss: Self)
        ensures
            tss.resvd0 == 0 && tss.resvd1 == 0 && tss.resvd2 == 0 && tss.resvd3 == 0,
            tss.rsp@ == seq![0u64, 0, 0],
            tss.ist@ == seq![0u64, 0, 0, 0, 0, 0, 0],
            tss.iomap_base == size,
    {
        let tss = Tss {
            resvd0: 0,
            rsp: [0; 3],
            resvd1: 0,
            ist: [0; 7],
            resvd2: 0,
            resvd3: 0,
            iomap_base: size,
        };
        assert(tss.rsp@ =~= seq![0u64, 0, 0]);
        assert(tss.ist@ =~= seq![0u64, 0, 0, 0, 0, 0, 0]);
        tss
    }

    /// Sets the top of spare stack `n`, counted from zero.
    pub fn set_ist(&mut self, n: usize, stack_top: u64)
        requires
            n < 7,
        ensures
            final(self).ist@ == old(self).ist@.update(n as int, stack_top),
            final(self).rsp == old(self).rsp,
            final(self).iomap_base == old(self).iomap_base,
            final(self).resvd0 == old(self).resvd0 && final(self).resvd1 == old(self).resvd1
                && final(self).resvd2 == old(self).resvd2 && final(self).resvd3 == old(self).resvd3,
    {
        self.ist[n] = stack_top;
    }
}

/// The first word of the descriptor of a task state segment: the low sixteen bits
/// of the limit, the low 24 bits of the base, the access byte, four more bits of
/// the limit, and eight more bits of the base.
pub open spec fn tss_low(base: u64, limit: u64) -> int {
    limit % 0x1_0000 + base % 0x100_0000 * 0x1_0000 + 0x89 * 0x100_0000_0000 + limit / 0x1_0000
        % 16 * 0x1_0000_0000_0000 + base / 0x100_0000 % 256 * 0x100_0000_0000_0000
}

/// Builds the table: nothing, code, data, and the task state segment at `base`
/// with limit `limit` in two words, the second the high 32 bits of the base.
pub fn table(base: u64, limit: u64) -> (rows: [u64; 5])
    ensures
        rows@[0] == 0,
        rows@[1] == KERNEL_CODE_DESC,
        rows@[2] == KERNEL_DATA_DESC,
        rows@[3] == tss_low(base, limit),
        rows@[4] == base / 0x1_0000_0000,
{
    let low: u64 = (limit & 0xFFFF) | ((base & 0xFFFFFF) << 16) | (0x89u64 << 40) | (((limit >> 16)
        & 0xF) << 48) | (((base >> 24) & 0xFF) << 56);
    let high: u64 = base >> 32;
    proof {
        assert(low == limit % 0x1_0000 + base % 0x100_0000 * 0x1_0000 + 0x89 * 0x100_0000_0000
            + limit / 0x1_0000 % 16 * 0x1_0000_0000_0000 + base / 0x100_0000 % 256
            * 0x100_0000_0000_0000) by (bit_vector)
            requires
                low == (limit & 0xFFFF) | ((base & 0xFFFFFF) << 16) | (0x89u64 << 40) | (((limit
                    >> 16) & 0xF) << 48) | (((base >> 24) & 0xFF) << 56),
        ;
        assert(high == base / 0x1_0000_0000) by (bit_vector)
            requires
                high == base >> 32,
        ;
    }
    [0, KERNEL_CODE_DESC, KERNEL_DATA_DESC, low, high]
}

/// Sets everything up: the first spare stack is the one of `stack_len` bytes at
/// `stack`, to be used from its end, and the table points at the task state
/// segment, `size` bytes at `base`.
pub fn init(tss: &mut Tss, stack: u64, stack_len: u64, base: u64, size: u64) -> (rows: [u64; 5])
    requires
        stack + stack_len <= u64::MAX,
        1 <= size,
    ensures
        final(tss).ist@ == old(tss).ist@.update(0, (stack + stack_len) as u64),
        final(tss).rsp == old(tss).rsp,
        final(tss).iomap_base == old(tss).iomap_base,
        final(tss).resvd0 == old(tss).resvd0 && final(tss).resvd1 == old(tss).resvd1
            && final(tss).resvd2 == old(tss).resvd2 && final(tss).resvd3 == old(tss).resvd3,
        rows@ == seq![
            0,
            KERNEL_CODE_DESC,
            KERNEL_DATA_DESC,
            tss_low(base, (size - 1) as u64) as u64,
            base / 0x1_0000_0000,
        ],
        0 <= tss_low(base, (size - 1) as u64) <= u64::MAX,
{
    tss.set_ist(0, stack + stack_len);
    table(base, size - 1)
}

/// The base that the processor reads from the two words of a descriptor: 24 bits
/// in the middle of the first word, eight at its end, and 32 in the second.
pub open spec fn base_read(low: int, high: int) -> int {
    low / 0x1_0000 % 0x100_0000 + low / 0x100_0000_0000_0000 * 0x100_0000 + high * 0x1_0000_0000
}

/// The limit that the processor reads from the first word of a descriptor.
pub open spec fn limit_read(low: int) -> int {
    low % 0x1_0000 + low / 0x1_0000_0000_0000 % 16 * 0x1_0000
}

/// The access byte that the processor reads from the first word of a descriptor.
pub open spec fn access_read(low: int) -> int {
    low / 0x100_0000_0000 % 256
}

/// The processor reads back the base, the access byte, and the limit as far as
/// twenty bits hold it.
pub proof fn lemma_descriptor_reads_back(base: u64, limit: u64)
    ensures
        base_read(tss_low(base, limit), (base / 0x1_0000_0000) as int) == base,
        access_read(tss_low(base, limit)) == 0x89,
        limit <= 0xF_FFFF ==> limit_read(tss_low(base, limit)) == limit,
{
    lemma_fields(
        (limit % 0x1_0000) as int,
        (base % 0x100_0000) as int,
        (limit / 0x1_0000 % 16) as int,
        (base / 0x100_0000 % 256) as int,
    );
    assert(base / 0x100_0000 / 256 == base / 0x1_0000_0000);
}

/// The fields of the first descriptor word do not run into each other.
proof fn lemma_fields(a: int, b: int, d: int, e: int)
    requires
        0 <= a < 0x1_0000,
        0 <= b < 0x100_0000,
        0 <= d < 16,
        0 <= e < 256,
    ensures
        ({
            let low = a + b * 0x1_0000 + 0x89 * 0x100_0000_0000 + d * 0x1_0000_0000_0000 + e
                * 0x100_0000_0000_0000;
            &&& low % 0x1_0000 == a
            &&& low / 0x1_0000 % 0x100_0000 == b
            &&& low / 0x100_0000_0000 % 256 == 0x89
            &&& low / 0x1_0000_0000_0000 % 16 == d
            &&& low / 0x100_0000_0000_0000 == e
        }),
{
    let low = a + b * 0x1_0000 + 0x89 * 0x100_0000_0000 + d * 0x1_0000_0000_0000 + e
        * 0x100_0000_0000_0000;
    assert(low / 0x1_0000 == b + 0x89 * 0x100_0000 + d * 0x1_0000_0000 + e * 0x100_0000_0000);
    assert(low / 0x100_0000_0000 == 0x89 + d * 0x100 + e * 0x1_0000);
    assert(low / 0x1_0000_0000_0000 == d + e * 0x100);
}

/// Bit for bit: what the processor finds where in the first word of the descriptor
/// is what it was made of, and nothing else is set.
pub proof fn lemma_descriptor_word(base: u64, limit: u64)
    ensures
        0 <= tss_low(base, limit) <= u64::MAX,
        tss_low(base, limit) % 0x1_0000 == limit % 0x1_0000,
        tss_low(base, limit) / 0x1_0000 % 0x100_0000 == base % 0x100_0000,
        tss_low(base, limit) / 0x100_0000_0000 % 0x100 == 0x89,
        tss_low(base, limit) / 0x1_0000_0000_0000 % 0x10 == limit / 0x1_0000 % 0x10,
        tss_low(base, limit) / 0x10_0000_0000_0000 % 0x10 == 0,
        tss_low(base, limit) / 0x100_0000_0000_0000 == base / 0x100_0000 % 0x100,
{
    let a = (limit % 0x1_0000) as int;
    let b = (base % 0x100_0000) as int;
    let d = (limit / 0x1_0000 % 16) as int;
    let e = (base / 0x100_0000 % 256) as int;
    lemma_fields(a, b, d, e);
    let low = tss_low(base, limit);
    assert(low / 0x10_0000_0000_0000 == e * 0x10);
}

/// The selectors name the rows by their byte offset, and the two segments are
/// present, of the highest privilege, one of readable 64-bit code and the other of
/// writable data.
pub proof fn lemma_segments()
    ensures
        KERNEL_CODE_SELECTOR == 8 * 1,
        KERNEL_DATA_SELECTOR == 8 * 2,
        TSS_SELECTOR == 8 * 3,
        KERNEL_CODE_DESC == 0x9A * 0x100_0000_0000 + 2 * 0x10_0000_0000_0000,
        KERNEL_DATA_DESC == 0x92 * 0x100_0000_0000,
{
}

} // verus!
