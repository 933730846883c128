//! The 8259 interrupt controllers and the 8254 timer: the bytes that program
//! them, and what their answers mean.

#[allow(unused_imports)]
use crate::bits::{bit, lemma_bit_update};
use crate::port::{PortOp, PortWrite};
use vstd::prelude::*;

verus! {

/// Command port of the master controller.
pub const MASTER_CMD: u16 = 0x20;

/// Data port of the master controller.
pub const MASTER_DATA: u16 = 0x21;

/// Command port of the slave controller, which hangs on line 2 of the master.
pub const SLAVE_CMD: u16 = 0xA0;

/// Data port of the slave controller.
pub const SLAVE_DATA: u16 = 0xA1;

/// Where the lines of the master, 0 to 7, go: interrupts 32 to 39.
pub const MASTER_OFFSET: u8 = 32;

/// Where the lines of the slave, 8 to 15, go: interrupts 40 to 47.
pub const SLAVE_OFFSET: u8 = 40;

/// The clock that feeds the timer, in hertz.
pub const BASE_HZ: u32 = 1193182;

/// What moves interrupt lines 0 to 15 to interrupts 32 to 47 and blocks them
/// all.
pub fn remap() -> (writes: [PortWrite; 10])
    ensures
        writes@ == seq![
            PortWrite { port: MASTER_CMD, value: 0x11 },
            PortWrite { port: SLAVE_CMD, value: 0x11 },
            PortWrite { port: MASTER_DATA, value: MASTER_OFFSET },
            PortWrite { port: SLAVE_DATA, value: SLAVE_OFFSET },
            PortWrite { port: MASTER_DATA, value: 0x04 },
            PortWrite { port: SLAVE_DATA, value: 0x02 },
            PortWrite { port: MASTER_DATA, value: 0x01 },
            PortWrite { port: SLAVE_DATA, value: 0x01 },
            PortWrite { port: MASTER_DATA, value: 0xFF },
            PortWrite { port: SLAVE_DATA, value: 0xFF },
        ],
{
    let writes = [
        PortWrite { port: MASTER_CMD, value: 0x11 },
        PortWrite { port: SLAVE_CMD, value: 0x11 },
        PortWrite { port: MASTER_DATA, value: MASTER_OFFSET },
        PortWrite { port: SLAVE_DATA, value: SLAVE_OFFSET },
        PortWrite { port: MASTER_DATA, value: 0x04 },
        PortWrite { port: SLAVE_DATA, value: 0x02 },
        PortWrite { port: MASTER_DATA, value: 0x01 },
        PortWrite { port: SLAVE_DATA, value: 0x01 },
        PortWrite { port: MASTER_DATA, value: 0xFF },
        PortWrite { port: SLAVE_DATA, value: 0xFF },
    ];
    assert(writes@ =~= seq![
        PortWrite { port: MASTER_CMD, value: 0x11 },
        PortWrite { port: SLAVE_CMD, value: 0x11 },
        PortWrite { port: MASTER_DATA, value: MASTER_OFFSET },
        PortWrite { port: SLAVE_DATA, value: SLAVE_OFFSET },
        PortWrite { port: MASTER_DATA, value: 0x04 },
        PortWrite { port: SLAVE_DATA, value: 0x02 },
        PortWrite { port: MASTER_DATA, value: 0x01 },
        PortWrite { port: SLAVE_DATA, value: 0x01 },
        PortWrite { port: MASTER_DATA, value: 0xFF },
        PortWrite { port: SLAVE_DATA, value: 0xFF },
    ]);
    writes
}

/// The data port of the controller that a line belongs to.
pub open spec fn data_port(irq: u8) -> u16 {
    if irq < 8 {
        MASTER_DATA
    } else {
        SLAVE_DATA
    }
}

/// Where the mask that blocks a line is read and written.
pub fn mask_port(irq: u8) -> (port: u16)
    ensures
        port == data_port(irq),
{
    if irq < 8 {
        MASTER_DATA
    } else {
        SLAVE_DATA
    }
}

/// What lets a line through, given the mask as its port reads: the same mask with
/// the bit of the line clear.
pub fn unmask(irq: u8, mask: u8) -> (w: PortWrite)
    ensures
        w.port == data_port(irq),
        w.value == mask & !(1u8 << (irq % 8)),
        forall|k: u8|
            k < 8 ==> #[trigger] bit(w.value, k) == (k != irq % 8 && bit(
                mask,
                k,
            )),
{
    let line: u8 = irq % 8;
    let value: u8 = mask & !(1u8 << line);
    proof {
        assert forall|k: u8| k < 8 implies #[trigger] bit(value, k) == (k != line
            && bit(mask, k)) by {
            lemma_bit_update(mask, line, k);
        }
    }
    PortWrite { port: mask_port(irq), value }
}

/// What acknowledges an interrupt: one byte to the master, and for a line of the
/// slave one to the slave before it.
pub fn send_eoi(irq: u8) -> (writes: (Option<PortWrite>, PortWrite))
    ensures
        writes.0 == if irq >= 8 {
            Some(PortWrite { port: SLAVE_CMD, value: 0x20 })
        } else {
            None
        },
        writes.1 == (PortWrite { port: MASTER_CMD, value: 0x20 }),
{
    let slave: Option<PortWrite> = if irq >= 8 {
        Some(PortWrite { port: SLAVE_CMD, value: 0x20 })
    } else {
        None
    };
    (slave, PortWrite { port: MASTER_CMD, value: 0x20 })
}

/// What is known of the timer: how many clocks make a tick (zero before it is
/// set up), and whether it was seen counting.
pub struct Pit {
    pub divisor: u32,
    pub ok: bool,
}

impl Pit {
    /// Before anything is known.
    pub fn new() -> (pit: Self)
        ensures
            pit.divisor == 0,
            !pit.ok,
    {
        Pit { divisor: 0, ok: false }
    }
}

/// What makes the timer tick `hz` times a second: channel 0 as a rate generator,
/// then the divisor, low byte first.
pub fn init_timer(pit: &mut Pit, hz: u32) -> (writes: [PortWrite; 3])
    requires
        hz > 0,
    ensures
        final(pit).divisor == BASE_HZ / hz,
        final(pit).ok == old(pit).ok,
        writes@ == seq![
            PortWrite { port: 0x43, value: 0x34 },
            PortWrite { port: 0x40, value: (BASE_HZ / hz % 256) as u8 },
            PortWrite { port: 0x40, value: (BASE_HZ / hz / 256 % 256) as u8 },
        ],
{
    let divisor: u32 = BASE_HZ / hz;
    pit.divisor = divisor;
    let writes = [
        PortWrite { port: 0x43, value: 0x34 },
        PortWrite { port: 0x40, value: (divisor % 256) as u8 },
        PortWrite { port: 0x40, value: (divisor / 256 % 256) as u8 },
    ];
    assert(writes@ =~= seq![
        PortWrite { port: 0x43, value: 0x34 },
        PortWrite { port: 0x40, value: (BASE_HZ / hz % 256) as u8 },
        PortWrite { port: 0x40, value: (BASE_HZ / hz / 256 % 256) as u8 },
    ]);
    writes
}

/// How many clocks of the timer make a tick.
pub fn pit_divisor(pit: &Pit) -> (divisor: u32)
    ensures
        divisor == pit.divisor,
{
    pit.divisor
}

/// Whether the timer was seen counting.
pub fn pit_ok(pit: &Pit) -> (ok: bool)
    ensures
        ok == pit.ok,
{
    pit.ok
}

/// How the count of the timer is read: latch it, then take its two bytes.
pub fn pit_count_ops() -> (ops: [PortOp; 3])
    ensures
        ops@ == seq![
            PortOp::Out { port: 0x43, value: 0x00 },
            PortOp::In { port: 0x40 },
            PortOp::In { port: 0x40 },
        ],
{
    let ops = [
        PortOp::Out { port: 0x43, value: 0x00 },
        PortOp::In { port: 0x40 },
        PortOp::In { port: 0x40 },
    ];
    assert(ops@ =~= seq![
        PortOp::Out { port: 0x43, value: 0x00 },
        PortOp::In { port: 0x40 },
        PortOp::In { port: 0x40 },
    ]);
    ops
}

/// The count of the timer from its two bytes, the low one first.
pub fn pit_count(lo: u8, hi: u8) -> (count: u16)
    ensures
        count == hi * 256 + lo,
{
    hi as u16 * 256 + lo as u16
}

/// Whether the timer counts, judged by two counts taken some time apart. The
/// answer is kept.
pub fn pit_alive(pit: &mut Pit, before: u16, after: u16) -> (alive: bool)
    ensures
        alive == (before != after),
        final(pit).ok == alive,
        final(pit).divisor == old(pit).divisor,
{
    let alive: bool = before != after;
    pit.ok = alive;
    alive
}

/// Whether the master's mask, as its data port reads, blocks the timer line.
pub fn irq0_masked(mask: u8) -> (masked: bool)
    ensures
        masked == (mask % 2 == 1),
{
    assert((mask & 1 != 0) == (mask % 2 == 1)) by (bit_vector);
    mask & 1 != 0
}

/// How the list of waiting interrupts is read from the master: name the register,
/// then take its byte.
pub fn master_irr() -> (ops: [PortOp; 2])
    ensures
        ops@ == seq![
            PortOp::Out { port: MASTER_CMD, value: 0x0A },
            PortOp::In { port: MASTER_CMD },
        ],
{
    let ops = [PortOp::Out { port: MASTER_CMD, value: 0x0A }, PortOp::In { port: MASTER_CMD }];
    assert(ops@ =~= seq![
        PortOp::Out { port: MASTER_CMD, value: 0x0A },
        PortOp::In { port: MASTER_CMD },
    ]);
    ops
}

/// The divisor sent to the timer is the one kept, as long as sixteen bits hold
/// it, which they do from 19 hertz on.
pub proof fn lemma_divisor_fits(hz: u32)
    requires
        19 <= hz,
    ensures
        BASE_HZ / hz <= u16::MAX,
        (BASE_HZ / hz % 256) + 256 * (BASE_HZ / hz / 256 % 256) == BASE_HZ / hz,
{
    assert(BASE_HZ / hz <= BASE_HZ / 19) by (nonlinear_arith)
        requires
            19 <= hz,
    ;
}

/// Lines 0 to 7 belong to the controller whose data port is 0x21, all others to the
/// one whose data port is 0xA1.
pub proof fn lemma_two_controllers(irq: u8)
    ensures
        irq < 8 ==> data_port(irq) == 0x21,
        irq >= 8 ==> data_port(irq) == 0xA1,
{
}

/// The controllers' ports, and where their lines go: right behind the 32 exceptions,
/// eight lines each.
pub proof fn lemma_lines_follow_the_exceptions()
    ensures
        MASTER_CMD == 0x20 && MASTER_DATA == MASTER_CMD + 1,
        SLAVE_CMD == 0xA0 && SLAVE_DATA == SLAVE_CMD + 1,
        MASTER_OFFSET == 32,
        SLAVE_OFFSET == MASTER_OFFSET + 8,
        BASE_HZ == 1_193_182,
{
}

} // verus!
