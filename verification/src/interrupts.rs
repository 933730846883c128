//! The interrupt table and the tick counter.

use crate::gdt::KERNEL_CODE_SELECTOR;
use vstd::prelude::*;

verus! {

/// What the entry code leaves on the stack for a handler, lowest address first:
/// the general registers, the error code (zero where the processor gives none),
/// and what the processor itself pushed.
#[derive(Clone, Copy)]
pub struct IsrFrame {
    pub rax: u64,
    pub rcx: u64,
    pub rdx: u64,
    pub rbx: u64,
    pub rbp: u64,
    pub rsi: u64,
    pub rdi: u64,
    pub r8: u64,
    pub r9: u64,
    pub r10: u64,
    pub r11: u64,
    pub r12: u64,
    pub r13: u64,
    pub r14: u64,
    pub r15: u64,
    pub error_code: u64,
    pub rip: u64,
    pub cs: u64,
    pub rflags: u64,
    pub rsp: u64,
    pub ss: u64,
}

/// One row of the interrupt table.
#[derive(Clone, Copy)]
pub struct Gate {
    pub low: u64,
    pub high: u64,
}

/// The row for a handler at `addr` that runs on spare stack `ist` (zero for the
/// current stack): in the low word bits 0 to 15 of the address, the code selector,
/// the stack, the type of an interrupt gate, and bits 16 to 31 of the address; in
/// the high word the rest of the address.
pub open spec fn gate_for(addr: u64, ist: u8) -> Gate {
    Gate {
        low: (addr % 0x1_0000 + KERNEL_CODE_SELECTOR * 0x1_0000 + ist % 8 * 0x1_0000_0000 + 0x8E
            * 0x100_0000_0000 + addr / 0x1_0000 % 0x1_0000 * 0x1_0000_0000_0000) as u64,
        high: (addr / 0x1_0000_0000) as u64,
    }
}

/// The handler address in a row.
pub open spec fn handler_of(g: Gate) -> int {
    g.low % 0x1_0000 + g.low / 0x1_0000_0000_0000 * 0x1_0000 + g.high * 0x1_0000_0000
}

/// The spare stack in a row.
pub open spec fn stack_of(g: Gate) -> int {
    g.low as int / 0x1_0000_0000 % 8
}

/// The code selector in a row.
pub open spec fn selector_of(g: Gate) -> int {
    g.low as int / 0x1_0000 % 0x1_0000
}

/// A row gives back the address, the stack and the code selector it was made for,
/// and is never empty.
pub proof fn lemma_gate_reads_back(addr: u64, ist: u8)
    ensures
        handler_of(gate_for(addr, ist)) == addr,
        stack_of(gate_for(addr, ist)) == ist % 8,
        selector_of(gate_for(addr, ist)) == KERNEL_CODE_SELECTOR,
        gate_for(addr, ist).low != 0,
{
    let a = (addr % 0x1_0000) as int;
    let s = (ist % 8) as int;
    let b = (addr / 0x1_0000 % 0x1_0000) as int;
    let low = a + 8 * 0x1_0000 + s * 0x1_0000_0000 + 0x8E * 0x100_0000_0000 + b
        * 0x1_0000_0000_0000;
    assert(low % 0x1_0000 == a);
    assert(low / 0x1_0000 == 8 + s * 0x1_0000 + 0x8E * 0x100_0000 + b * 0x1_0000_0000);
    assert(low / 0x1_0000_0000 == s + 0x8E * 0x100 + b * 0x1_0000);
    assert(low / 0x1_0000_0000_0000 == b);
    assert(addr / 0x1_0000 / 0x1_0000 == addr / 0x1_0000_0000);
}

impl Gate {
    /// An empty row.
    pub fn missing() -> (g: Self)
        ensures
            g.low == 0,
            g.high == 0,
    {
        Gate { low: 0, high: 0 }
    }

    /// Enters a handler.
    pub fn set_handler(&mut self, stub: u64, ist: u8)
        ensures
            *final(self) == gate_for(stub, ist),
    {
        let addr: u64 = stub;
        let stack: u64 = (ist % 8) as u64;
        let low: u64 = (addr & 0xFFFF) | ((KERNEL_CODE_SELECTOR as u64) << 16) | (stack << 32) | (
        0x8Eu64 << 40) | (((addr >> 16) & 0xFFFF) << 48);
        let high: u64 = addr >> 32;
        proof {
            let selector = KERNEL_CODE_SELECTOR as u64;
            assert(low == addr % 0x1_0000 + 8 * 0x1_0000 + stack * 0x1_0000_0000 + 0x8E
                * 0x100_0000_0000 + addr / 0x1_0000 % 0x1_0000 * 0x1_0000_0000_0000)
                by (bit_vector)
                requires
                    stack < 8,
                    selector == 8,
                    low == (addr & 0xFFFF) | (selector << 16) | (stack << 32) | (0x8Eu64 << 40) | (((
                    addr >> 16) & 0xFFFF) << 48),
            ;
            assert(high == addr / 0x1_0000_0000) by (bit_vector)
                requires
                    high == addr >> 32,
            ;
        }
        self.low = low;
        self.high = high;
    }
}

/// Where the entry code for each kind of interrupt lies.
#[derive(Clone, Copy)]
pub struct Stubs {
    pub divide_error: u64,
    pub breakpoint: u64,
    pub invalid_opcode: u64,
    pub double_fault: u64,
    pub unexpected: u64,
    pub timer: u64,
    pub keyboard: u64,
}

/// What row `i` of the table holds once it has been filled, given what it held
/// before: the exceptions with a handler of their own, the timer, the keyboard,
/// and the fallback in what is still empty of the exceptions. A double fault runs
/// on the first spare stack.
pub open spec fn row_for(stubs: Stubs, i: int, before: Gate) -> Gate {
    if i == 0 {
        gate_for(stubs.divide_error, 0)
    } else if i == 3 {
        gate_for(stubs.breakpoint, 0)
    } else if i == 6 {
        gate_for(stubs.invalid_opcode, 0)
    } else if i == 8 {
        gate_for(stubs.double_fault, 1)
    } else if i == 32 {
        gate_for(stubs.timer, 0)
    } else if i == 33 {
        gate_for(stubs.keyboard, 0)
    } else if i < 32 && before.low == 0 {
        gate_for(stubs.unexpected, 0)
    } else {
        before
    }
}

/// Fills the interrupt table.
pub fn init(idt: &mut [Gate; 256], stubs: &Stubs)
    ensures
        forall|i: int|
            0 <= i < 256 ==> #[trigger] final(idt)@[i] == row_for(*stubs, i, old(idt)@[i]),
{
    let mut g = Gate::missing();
    g.set_handler(stubs.divide_error, 0);
    idt[0] = g;
    g.set_handler(stubs.breakpoint, 0);
    idt[3] = g;
    g.set_handler(stubs.invalid_opcode, 0);
    idt[6] = g;
    g.set_handler(stubs.double_fault, 1);
    idt[8] = g;
    proof {
        lemma_gate_reads_back(stubs.divide_error, 0);
        lemma_gate_reads_back(stubs.breakpoint, 0);
        lemma_gate_reads_back(stubs.invalid_opcode, 0);
        lemma_gate_reads_back(stubs.double_fault, 1);
    }
    g.set_handler(stubs.unexpected, 0);
    let ghost named = idt@;
    let mut i: usize = 0;
    while i < 32
        invariant
            i <= 32,
            g == gate_for(stubs.unexpected, 0),
            forall|j: int| i <= j < 256 ==> #[trigger] idt@[j] == named[j],
            forall|j: int|
                0 <= j < i ==> #[trigger] idt@[j] == if named[j].low == 0 {
                    g
                } else {
                    named[j]
                },
        decreases 32 - i,
    {
        if idt[i].low == 0 {
            idt[i] = g;
        }
        i = i + 1;
    }
    g.set_handler(stubs.timer, 0);
    idt[32] = g;
    g.set_handler(stubs.keyboard, 0);
    idt[33] = g;
}

/// The tick counter.
pub struct Ticks {
    pub count: u64,
}

impl Ticks {
    /// Before the first tick.
    pub fn new() -> (t: Self)
        ensures
            t.count == 0,
    {
        Ticks { count: 0 }
    }

    /// Counts a tick. At each full second, one hundred ticks, it gives the seconds
    /// so far.
    pub fn on_timer(&mut self) -> (second: Option<u64>)
        requires
            old(self).count < u64::MAX,
        ensures
            final(self).count == old(self).count + 1,
            second == if final(self).count % 100 == 0 {
                Some((final(self).count / 100) as u64)
            } else {
                None
            },
    {
        self.count = self.count + 1;
        if self.count % 100 == 0 {
            Some(self.count / 100)
        } else {
            None
        }
    }

    /// The ticks so far.
    pub fn ticks(&self) -> (count: u64)
        ensures
            count == self.count,
    {
        self.count
    }
}

/// Bit for bit: what the processor finds where in a row is what the row was made of.
pub proof fn lemma_gate_words(addr: u64, ist: u8)
    ensures
        gate_for(addr, ist).low % 0x1_0000 == addr % 0x1_0000,
        gate_for(addr, ist).low / 0x1_0000 % 0x1_0000 == 8,
        gate_for(addr, ist).low / 0x1_0000_0000 % 0x100 == ist % 8,
        gate_for(addr, ist).low / 0x100_0000_0000 % 0x100 == 0x8E,
        gate_for(addr, ist).low / 0x1_0000_0000_0000 == addr / 0x1_0000 % 0x1_0000,
        gate_for(addr, ist).high == addr / 0x1_0000_0000,
{
    let a = (addr % 0x1_0000) as int;
    let s = (ist % 8) as int;
    let b = (addr / 0x1_0000 % 0x1_0000) as int;
    let low = a + 8 * 0x1_0000 + s * 0x1_0000_0000 + 0x8E * 0x100_0000_0000 + b
        * 0x1_0000_0000_0000;
    assert(low == gate_for(addr, ist).low);
    assert(low % 0x1_0000 == a);
    assert(low / 0x1_0000 == 8 + s * 0x1_0000 + 0x8E * 0x100_0000 + b * 0x1_0000_0000);
    assert(low / 0x1_0000_0000 == s + 0x8E * 0x100 + b * 0x1_0000);
    assert(low / 0x100_0000_0000 == 0x8E + b * 0x100);
    assert(low / 0x1_0000_0000_0000 == b);
}

/// Who answers what: division errors, breakpoints and bad opcodes their handlers,
/// double faults theirs on the first spare stack, the other exceptions the fallback
/// unless their row was filled before, and the two lines in use the timer and the
/// keyboard; no other row changes.
pub proof fn lemma_who_answers(stubs: Stubs, i: int, before: Gate)
    requires
        0 <= i < 256,
    ensures
        i == 0 ==> row_for(stubs, i, before) == gate_for(stubs.divide_error, 0),
        i == 3 ==> row_for(stubs, i, before) == gate_for(stubs.breakpoint, 0),
        i == 6 ==> row_for(stubs, i, before) == gate_for(stubs.invalid_opcode, 0),
        i == 8 ==> row_for(stubs, i, before) == gate_for(stubs.double_fault, 1),
        i < 32 && i != 0 && i != 3 && i != 6 && i != 8 && before.low == 0 ==> row_for(
            stubs,
            i,
            before,
        ) == gate_for(stubs.unexpected, 0),
        i < 32 && i != 0 && i != 3 && i != 6 && i != 8 && before.low != 0 ==> row_for(
            stubs,
            i,
            before,
        ) == before,
        i == 32 ==> row_for(stubs, i, before) == gate_for(stubs.timer, 0),
        i == 33 ==> row_for(stubs, i, before) == gate_for(stubs.keyboard, 0),
        i > 33 ==> row_for(stubs, i, before) == before,
{
}

} // verus!
