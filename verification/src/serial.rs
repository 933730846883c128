//! The serial port: the command sequence that sets a 16550 UART up, and the bytes
//! that a text becomes on the wire.

use crate::port::PortWrite;
#[allow(unused_imports)]
use vstd::string::StringSliceAdditionalSpecFns;
use vstd::prelude::*;

verus! {

/// A serial line, by the number of its first port.
#[derive(Clone, Copy)]
pub struct SerialPort {
    pub base: u16,
}

/// A text on the wire: every line feed has a carriage return before it.
pub open spec fn wire(s: Seq<u8>) -> Seq<u8>
    decreases s.len(),
{
    if s.len() == 0 {
        Seq::empty()
    } else if s.last() == 0x0A {
        wire(s.drop_last()).push(0x0D).push(0x0A)
    } else {
        wire(s.drop_last()).push(s.last())
    }
}

/// How far the sending of a text has come: `next` is the byte in turn, and
/// `cr_sent` says that it is a line feed whose carriage return is out.
#[derive(Clone, Copy)]
pub struct Transmission {
    pub next: usize,
    pub cr_sent: bool,
}

impl Transmission {
    /// The position is in the text, and only a line feed has its carriage return
    /// out.
    pub open spec fn wf(self, s: Seq<u8>) -> bool {
        &&& self.next <= s.len()
        &&& self.cr_sent ==> self.next < s.len() && s[self.next as int] == 0x0A
    }

    /// How many bytes are on the wire.
    pub open spec fn sent(self, s: Seq<u8>) -> nat {
        wire(s.take(self.next as int)).len() + if self.cr_sent {
            1nat
        } else {
            0nat
        }
    }

    /// Nothing sent yet.
    pub fn start() -> (tx: Self)
        ensures
            forall|s: Seq<u8>| #[trigger] tx.wf(s) && tx.sent(s) == 0,
    {
        let tx = Transmission { next: 0, cr_sent: false };
        assert forall|s: Seq<u8>| #[trigger] tx.wf(s) && tx.sent(s) == 0 by {
            assert(s.take(0) =~= Seq::<u8>::empty());
        }
        tx
    }
}

/// The wire text of a beginning is a beginning of the wire text.
proof fn lemma_wire_prefix(s: Seq<u8>, n: int)
    requires
        0 <= n <= s.len(),
    ensures
        wire(s.take(n)).len() <= wire(s).len(),
        wire(s).take(wire(s.take(n)).len() as int) == wire(s.take(n)),
    decreases s.len() - n,
{
    if n < s.len() {
        lemma_wire_prefix(s, n + 1);
        assert(s.take(n + 1).drop_last() =~= s.take(n));
        assert(wire(s).take(wire(s.take(n)).len() as int) =~= wire(s).take(
            wire(s.take(n + 1)).len() as int,
        ).take(wire(s.take(n)).len() as int));
        assert(wire(s.take(n + 1)).take(wire(s.take(n)).len() as int) =~= wire(s.take(n)));
    } else {
        assert(s.take(n) =~= s);
        assert(wire(s).take(wire(s).len() as int) =~= wire(s));
    }
}

impl SerialPort {
    /// The port of the first serial line.
    pub const COM1: u16 = 0x3F8;

    /// The line at port `base`.
    pub fn new(base: u16) -> (line: Self)
        ensures
            line.base == base,
    {
        SerialPort { base }
    }

    /// What sets the line up: interrupts off, 38400 baud, eight data bits without
    /// parity and one stop bit, the queue on and empty, ready to send.
    pub fn init(&self) -> (writes: [PortWrite; 7])
        requires
            self.base + 4 <= u16::MAX,
        ensures
            writes@ == seq![
                PortWrite { port: (self.base + 1) as u16, value: 0x00 },
                PortWrite { port: (self.base + 3) as u16, value: 0x80 },
                PortWrite { port: self.base, value: 0x03 },
                PortWrite { port: (self.base + 1) as u16, value: 0x00 },
                PortWrite { port: (self.base + 3) as u16, value: 0x03 },
                PortWrite { port: (self.base + 2) as u16, value: 0xC7 },
                PortWrite { port: (self.base + 4) as u16, value: 0x0B },
            ],
    {
        let writes = [
            PortWrite { port: self.base + 1, value: 0x00 },
            PortWrite { port: self.base + 3, value: 0x80 },
            PortWrite { port: self.base, value: 0x03 },
            PortWrite { port: self.base + 1, value: 0x00 },
            PortWrite { port: self.base + 3, value: 0x03 },
            PortWrite { port: self.base + 2, value: 0xC7 },
            PortWrite { port: self.base + 4, value: 0x0B },
        ];
        assert(writes@ =~= seq![
            PortWrite { port: (self.base + 1) as u16, value: 0x00 },
            PortWrite { port: (self.base + 3) as u16, value: 0x80 },
            PortWrite { port: self.base, value: 0x03 },
            PortWrite { port: (self.base + 1) as u16, value: 0x00 },
            PortWrite { port: (self.base + 3) as u16, value: 0x03 },
            PortWrite { port: (self.base + 2) as u16, value: 0xC7 },
            PortWrite { port: (self.base + 4) as u16, value: 0x0B },
        ]);
        writes
    }

    /// The port that tells whether the line can take a byte.
    pub fn status_port(&self) -> (port: u16)
        requires
            self.base + 5 <= u16::MAX,
        ensures
            port == self.base + 5,
    {
        self.base + 5
    }

    /// What to do with a byte once the line's status has been read: write it if
    /// the line is idle (bit 5 of the status), else read the status again.
    pub fn send_raw(&self, data: u8, status: u8) -> (w: Option<PortWrite>)
        ensures
            w == if status as int / 32 % 2 == 1 {
                Some(PortWrite { port: self.base, value: data })
            } else {
                None
            },
    {
        assert((status & 0x20 != 0) == (status / 32 % 2 == 1)) by (bit_vector);
        if status & 0x20 == 0 {
            None
        } else {
            Some(PortWrite { port: self.base, value: data })
        }
    }

    /// The next byte of a text to put on the wire, `None` once all of it is out.
    pub fn send_str(&self, s: &str, tx: &mut Transmission) -> (b: Option<u8>)
        requires
            old(tx).wf(s.spec_bytes()),
        ensures
            final(tx).wf(s.spec_bytes()),
            old(tx).sent(s.spec_bytes()) <= wire(s.spec_bytes()).len(),
            old(tx).sent(s.spec_bytes()) < wire(s.spec_bytes()).len() ==> {
                &&& b == Some(wire(s.spec_bytes())[old(tx).sent(s.spec_bytes()) as int])
                &&& final(tx).sent(s.spec_bytes()) == old(tx).sent(s.spec_bytes()) + 1
            },
            old(tx).sent(s.spec_bytes()) == wire(s.spec_bytes()).len() ==> {
                &&& b is None
                &&& *final(tx) == *old(tx)
            },
    {
        let bytes = s.as_bytes();
        let ghost text = bytes@;
        let i: usize = tx.next;
        if i >= bytes.len() {
            assert(text.take(i as int) =~= text);
            return None;
        }
        proof {
            lemma_wire_prefix(text, i as int);
            lemma_wire_prefix(text, i + 1);
            assert(text.take(i + 1).drop_last() =~= text.take(i as int));
            let so_far = wire(text.take(i as int)).len() as int;
            let then = wire(text.take(i + 1));
            assert(then =~= wire(text).take(then.len() as int));
            assert(then[so_far] == wire(text)[so_far]);
            assert(text[i as int] == 0x0A ==> then[so_far + 1] == wire(text)[so_far + 1]);
        }
        let b: u8 = bytes[i];
        if b == 0x0A && !tx.cr_sent {
            tx.cr_sent = true;
            return Some(0x0D);
        }
        tx.cr_sent = false;
        tx.next = i + 1;
        Some(b)
    }
}

/// On the wire no line feed comes without a carriage return right before it.
pub proof fn lemma_line_feeds_are_preceded(s: Seq<u8>, i: int)
    requires
        0 <= i < wire(s).len(),
        wire(s)[i] == 0x0A,
    ensures
        0 < i,
        wire(s)[i - 1] == 0x0D,
    decreases s.len(),
{
    if i < wire(s.drop_last()).len() {
        assert(wire(s)[i] == wire(s.drop_last())[i]);
        lemma_line_feeds_are_preceded(s.drop_last(), i);
    }
}

/// A text without line feeds goes out as it is.
pub proof fn lemma_plain_text_unchanged(s: Seq<u8>)
    requires
        forall|i: int| 0 <= i < s.len() ==> s[i] != 0x0A,
    ensures
        wire(s) == s,
    decreases s.len(),
{
    if s.len() > 0 {
        lemma_plain_text_unchanged(s.drop_last());
        assert(wire(s) =~= s);
    } else {
        assert(wire(s) =~= s);
    }
}

/// Every byte goes out for itself, in order: a line feed as a carriage return and
/// a line feed, any other as it is.
pub proof fn lemma_bytes_go_out_in_order(s: Seq<u8>, t: Seq<u8>, b: u8)
    ensures
        wire(s + t) == wire(s) + wire(t),
        wire(seq![b]) == if b == 0x0A {
            seq![0x0Du8, 0x0A]
        } else {
            seq![b]
        },
    decreases t.len(),
{
    reveal_with_fuel(wire, 2);
    assert(seq![b].drop_last() =~= Seq::<u8>::empty());
    if t.len() == 0 {
        assert(s + t =~= s);
        assert(wire(s) + wire(t) =~= wire(s));
    } else {
        lemma_bytes_go_out_in_order(s, t.drop_last(), b);
        assert((s + t).drop_last() =~= s + t.drop_last());
        assert(wire(s + t) =~= wire(s) + wire(t));
    }
    assert(wire(seq![b]) =~= if b == 0x0A {
        seq![0x0Du8, 0x0A]
    } else {
        seq![b]
    });
}

} // verus!
