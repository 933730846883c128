//! The keyboard: scan codes become keys, and keys wait in a queue until the main
//! loop takes them.

use vstd::prelude::*;

verus! {

/// The character of each scan code of set 1, zero where there is none.
pub const NORMAL: [u8; 59] = [
    0, 0x1B, 0x31, 0x32, 0x33, 0x34, 0x35, 0x36, 0x37, 0x38, 0x39, 0x30, 0x2D, 0x3D,
    0x08, 0x09, 0x71, 0x77, 0x65, 0x72, 0x74, 0x79, 0x75, 0x69, 0x6F, 0x70, 0x5B, 0x5D,
    0x0A, 0, 0x61, 0x73, 0x64, 0x66, 0x67, 0x68, 0x6A, 0x6B, 0x6C, 0x3B, 0x27,
    0x60, 0, 0x5C, 0x7A, 0x78, 0x63, 0x76, 0x62, 0x6E, 0x6D, 0x2C, 0x2E, 0x2F,
    0, 0x2A, 0, 0x20, 0,
];

/// The character of each scan code while a shift key is down.
pub const SHIFTED: [u8; 59] = [
    0, 0x1B, 0x21, 0x40, 0x23, 0x24, 0x25, 0x5E, 0x26, 0x2A, 0x28, 0x29, 0x5F, 0x2B,
    0x08, 0x09, 0x51, 0x57, 0x45, 0x52, 0x54, 0x59, 0x55, 0x49, 0x4F, 0x50, 0x7B, 0x7D,
    0x0A, 0, 0x41, 0x53, 0x44, 0x46, 0x47, 0x48, 0x4A, 0x4B, 0x4C, 0x3A, 0x22,
    0x7E, 0, 0x7C, 0x5A, 0x58, 0x43, 0x56, 0x42, 0x4E, 0x4D, 0x3C, 0x3E, 0x3F,
    0, 0x2A, 0, 0x20, 0,
];

/// Keys without a character have codes from 0x80 on.
pub const KEY_LEFT: u8 = 0x81;

pub const KEY_RIGHT: u8 = 0x82;

pub const KEY_UP: u8 = 0x83;

pub const KEY_DOWN: u8 = 0x84;

/// How many slots the queue has. One of them always stays empty.
pub const Q_LEN: usize = 32;

/// A ring of keys. The interrupt handler alone moves `head`, the place of the next
/// key to come; the main loop alone moves `tail`, the place of the next key to go.
pub struct KeyQueue {
    pub slots: [u8; 32],
    pub head: usize,
    pub tail: usize,
}

impl View for KeyQueue {
    type V = Seq<u8>;

    open spec fn view(&self) -> Seq<u8> {
        Seq::new(
            self.waiting(),
            |i: int| self.slots@[place(self.tail as int, i)],
        )
    }
}

/// The place `i` steps after `tail` in the ring.
pub open spec fn place(tail: int, i: int) -> int {
    if tail + i < Q_LEN {
        tail + i
    } else {
        tail + i - Q_LEN
    }
}

/// A queue after a key has come: at the end, or dropped if the queue is full.
pub open spec fn queued(q: Seq<u8>, k: u8) -> Seq<u8> {
    if q.len() < Q_LEN - 1 {
        q.push(k)
    } else {
        q
    }
}

impl KeyQueue {
    /// Both places are in the ring.
    pub open spec fn wf(&self) -> bool {
        self.head < Q_LEN && self.tail < Q_LEN
    }

    /// How many keys wait.
    pub open spec fn waiting(&self) -> nat {
        if self.tail <= self.head {
            (self.head - self.tail) as nat
        } else {
            (self.head + Q_LEN - self.tail) as nat
        }
    }

    /// An empty queue.
    pub fn new() -> (q: Self)
        ensures
            q.wf(),
            q@ == Seq::<u8>::empty(),
            q.head == 0,
            q.tail == 0,
            q.slots@ == Seq::new(32, |i: int| 0u8),
    {
        let q = KeyQueue { slots: [0; 32], head: 0, tail: 0 };
        assert(q@ =~= Seq::<u8>::empty());
        assert(q.slots@ =~= Seq::new(32, |i: int| 0u8));
        q
    }

    /// Puts a key in; a full queue drops it.
    pub fn push_key(&mut self, k: u8)
        requires
            old(self).wf(),
        ensures
            final(self).wf(),
            final(self)@ == queued(old(self)@, k),
            final(self).tail == old(self).tail,
    {
        let next: usize = (self.head + 1) % Q_LEN;
        if next == self.tail {
            assert(self@.len() == 31);
            return;
        }
        self.slots[self.head] = k;
        self.head = next;
        assert(self@ =~= old(self)@.push(k));
    }

    /// Takes the oldest key out.
    pub fn pop_key(&mut self) -> (k: Option<u8>)
        requires
            old(self).wf(),
        ensures
            final(self).wf(),
            final(self).head == old(self).head,
            final(self).slots == old(self).slots,
            old(self)@.len() == 0 ==> k is None && final(self)@ == old(self)@,
            old(self)@.len() > 0 ==> k == Some(old(self)@[0]) && final(self)@ == old(self)@.skip(1),
    {
        if self.tail == self.head {
            return None;
        }
        let k: u8 = self.slots[self.tail];
        self.tail = (self.tail + 1) % Q_LEN;
        assert(self@ =~= old(self)@.skip(1));
        Some(k)
    }
}

/// The keyboard: whether a shift key is down, whether the last code was the prefix
/// of a longer one, and the keys that wait.
pub struct Keyboard {
    pub shift: bool,
    pub extended: bool,
    pub queue: KeyQueue,
}

/// The keyboard as a value.
pub struct KeyboardView {
    pub shift: bool,
    pub extended: bool,
    pub queue: Seq<u8>,
}

impl View for Keyboard {
    type V = KeyboardView;

    open spec fn view(&self) -> KeyboardView {
        KeyboardView { shift: self.shift, extended: self.extended, queue: self.queue@ }
    }
}

/// The key that a code after the prefix stands for: an arrow going down.
pub open spec fn arrow(sc: u8) -> Option<u8> {
    if sc == 0x4B {
        Some(KEY_LEFT)
    } else if sc == 0x4D {
        Some(KEY_RIGHT)
    } else if sc == 0x48 {
        Some(KEY_UP)
    } else if sc == 0x50 {
        Some(KEY_DOWN)
    } else {
        None
    }
}

/// The character that a code without prefix stands for: that of a key going down.
pub open spec fn character(sc: u8, shift: bool) -> Option<u8> {
    let ch = if sc >= 59 {
        0u8
    } else if shift {
        SHIFTED@[sc as int]
    } else {
        NORMAL@[sc as int]
    };
    if ch == 0 {
        None
    } else {
        Some(ch)
    }
}

impl KeyboardView {
    /// The keyboard after a key, if any, has been queued.
    pub open spec fn with_key(self, k: Option<u8>) -> KeyboardView {
        match k {
            Some(k) => KeyboardView { queue: queued(self.queue, k), ..self },
            None => self,
        }
    }

    /// The keyboard after a scan code. A code with its highest bit set is a key
    /// going up, which only matters for the shift keys, 0x2A and 0x36.
    pub open spec fn scanned(self, sc: u8) -> KeyboardView {
        if self.extended {
            (KeyboardView { extended: false, ..self }).with_key(arrow(sc))
        } else if sc == 0xE0 {
            KeyboardView { extended: true, ..self }
        } else if sc % 128 == 0x2A || sc % 128 == 0x36 {
            KeyboardView { shift: sc < 128, ..self }
        } else {
            self.with_key(character(sc, self.shift))
        }
    }
}

impl Keyboard {
    /// The queue is well-formed.
    pub open spec fn wf(&self) -> bool {
        self.queue.wf()
    }

    /// No key down, none waiting.
    pub fn new() -> (kb: Self)
        ensures
            kb.wf(),
            kb@ == (KeyboardView { shift: false, extended: false, queue: Seq::empty() }),
    {
        Keyboard { shift: false, extended: false, queue: KeyQueue::new() }
    }
}

/// Takes the oldest waiting key.
pub fn pop_key(kb: &mut Keyboard) -> (k: Option<u8>)
    requires
        old(kb).wf(),
    ensures
        final(kb).wf(),
        old(kb)@.queue.len() == 0 ==> k is None && final(kb)@ == old(kb)@,
        old(kb)@.queue.len() > 0 ==> k == Some(old(kb)@.queue[0]) && final(kb)@ == (KeyboardView {
            queue: old(kb)@.queue.skip(1),
            ..old(kb)@
        }),
{
    kb.queue.pop_key()
}

/// Handles the scan code that came with a keyboard interrupt.
pub fn on_interrupt(kb: &mut Keyboard, sc: u8)
    requires
        old(kb).wf(),
    ensures
        final(kb).wf(),
        final(kb)@ == old(kb)@.scanned(sc),
        final(kb).queue.tail == old(kb).queue.tail,
{
    proof {
        assert((sc & 0x80 != 0) == (sc >= 128)) by (bit_vector);
        assert(sc & 0x7F == sc % 128) by (bit_vector);
    }
    let released: bool = sc & 0x80 != 0;
    let code: u8 = sc & 0x7F;
    if kb.extended {
        kb.extended = false;
        if !released {
            if code == 0x4B {
                kb.queue.push_key(KEY_LEFT);
            } else if code == 0x4D {
                kb.queue.push_key(KEY_RIGHT);
            } else if code == 0x48 {
                kb.queue.push_key(KEY_UP);
            } else if code == 0x50 {
                kb.queue.push_key(KEY_DOWN);
            }
        }
        return;
    }
    if sc == 0xE0 {
        kb.extended = true;
        return;
    }
    if code == 0x2A || code == 0x36 {
        kb.shift = !released;
    } else if !released && code < 59 {
        let ch: u8 = if kb.shift {
            SHIFTED[code as usize]
        } else {
            NORMAL[code as usize]
        };
        if ch != 0 {
            kb.queue.push_key(ch);
        }
    }
}

/// Characters have codes below 0x80, arrows from 0x80 on, so a key in the queue
/// tells which of the two it is.
pub proof fn lemma_characters_are_not_arrows(sc: u8, shift: bool)
    ensures
        character(sc, shift) matches Some(ch) ==> ch < 0x80,
        arrow(sc) matches Some(k) ==> k >= 0x80,
{
}

/// A key going up puts nothing into the queue.
pub proof fn lemma_release_is_silent(kb: KeyboardView, sc: u8)
    requires
        sc >= 128,
    ensures
        kb.scanned(sc).queue == kb.queue,
{
}

/// A shift key going down and up again leaves the keyboard as it was, if none was
/// down before.
pub proof fn lemma_shift_comes_and_goes(kb: KeyboardView, sc: u8)
    requires
        !kb.extended,
        !kb.shift,
        sc == 0x2A || sc == 0x36,
    ensures
        kb.scanned(sc).scanned((sc + 128) as u8) == kb,
{
}

/// A queue after several keys have come.
pub open spec fn all_queued(q: Seq<u8>, keys: Seq<u8>) -> Seq<u8>
    decreases keys.len(),
{
    if keys.len() == 0 {
        q
    } else {
        all_queued(queued(q, keys[0]), keys.skip(1))
    }
}

/// Keys wait in the order in which they came, and those that find the queue full
/// are the ones that are lost.
pub proof fn lemma_keys_keep_their_order(q: Seq<u8>, keys: Seq<u8>)
    requires
        q.len() < Q_LEN,
    ensures
        q.len() + keys.len() < Q_LEN ==> all_queued(q, keys) == q + keys,
        q.len() + keys.len() >= Q_LEN ==> all_queued(q, keys) == (q + keys).take(Q_LEN - 1),
    decreases keys.len(),
{
    if keys.len() == 0 {
        assert(q + keys =~= q);
    } else {
        let next = queued(q, keys[0]);
        lemma_keys_keep_their_order(next, keys.skip(1));
        if q.len() < Q_LEN - 1 {
            assert(next + keys.skip(1) =~= q + keys);
        } else {
            assert(next == q);
            assert((q + keys).take(Q_LEN - 1) =~= q);
            assert((q + keys.skip(1)).take(Q_LEN - 1) =~= q);
            assert(q + Seq::<u8>::empty() =~= q);
        }
    }
}

/// Every key that has a character delivers it: what the table in force holds for
/// the code joins the queue, and a code whose place there is empty does nothing.
pub proof fn lemma_key_delivers_its_character(kb: KeyboardView, sc: u8)
    requires
        !kb.extended,
        sc < 59,
        sc != 0x2A,
        sc != 0x36,
    ensures
        !kb.shift && NORMAL@[sc as int] != 0 && kb.queue.len() < 31 ==> kb.scanned(sc) == (
        KeyboardView { queue: kb.queue.push(NORMAL@[sc as int]), ..kb }),
        kb.shift && SHIFTED@[sc as int] != 0 && kb.queue.len() < 31 ==> kb.scanned(sc) == (
        KeyboardView { queue: kb.queue.push(SHIFTED@[sc as int]), ..kb }),
        !kb.shift && NORMAL@[sc as int] == 0 ==> kb.scanned(sc) == kb,
        kb.shift && SHIFTED@[sc as int] == 0 ==> kb.scanned(sc) == kb,
{
}

/// Behind the prefix the four arrows deliver their keys, every other code does
/// nothing, and the prefix is used up either way.
pub proof fn lemma_prefix_reaches_one_code(kb: KeyboardView, sc: u8)
    requires
        kb.extended,
        kb.queue.len() < 31,
    ensures
        sc == 0x4B ==> kb.scanned(sc).queue == kb.queue.push(0x81),
        sc == 0x4D ==> kb.scanned(sc).queue == kb.queue.push(0x82),
        sc == 0x48 ==> kb.scanned(sc).queue == kb.queue.push(0x83),
        sc == 0x50 ==> kb.scanned(sc).queue == kb.queue.push(0x84),
        sc != 0x4B && sc != 0x4D && sc != 0x48 && sc != 0x50 ==> kb.scanned(sc).queue == kb.queue,
        !kb.scanned(sc).extended,
        kb.scanned(sc).shift == kb.shift,
{
}

/// Without the prefix the prefix itself and the shift keys set their states, and
/// codes past the tables and keys going up do nothing.
pub proof fn lemma_other_codes(kb: KeyboardView, sc: u8)
    requires
        !kb.extended,
        sc >= 59 || sc == 0x2A || sc == 0x36,
    ensures
        kb.scanned(sc).queue == kb.queue,
        kb.scanned(sc).extended <==> sc == 0xE0,
        sc == 0x2A || sc == 0x36 ==> kb.scanned(sc).shift,
        sc == 0xAA || sc == 0xB6 ==> !kb.scanned(sc).shift,
        sc != 0x2A && sc != 0x36 && sc != 0xAA && sc != 0xB6 ==> kb.scanned(sc).shift == kb.shift,
{
}

/// A queue of 31 keys takes no more, whatever comes.
pub proof fn lemma_full_queue_stays(kb: KeyboardView, sc: u8)
    requires
        kb.queue.len() >= 31,
    ensures
        kb.scanned(sc).queue == kb.queue,
{
}

/// The tables hold the rows of the keyboard as they are printed on its keys.
pub proof fn lemma_rows_as_printed()
    ensures
        NORMAL@.subrange(1, 15) == seq![
            '\x1B', '1', '2', '3', '4', '5', '6', '7', '8', '9', '0', '-', '=', '\x08',
        ].map_values(|c: char| c as u8),
        NORMAL@.subrange(15, 29) == seq![
            '\t', 'q', 'w', 'e', 'r', 't', 'y', 'u', 'i', 'o', 'p', '[', ']', '\n',
        ].map_values(|c: char| c as u8),
        NORMAL@.subrange(30, 42) == seq![
            'a', 's', 'd', 'f', 'g', 'h', 'j', 'k', 'l', ';', '\'', '`',
        ].map_values(|c: char| c as u8),
        NORMAL@.subrange(43, 54) == seq![
            '\\', 'z', 'x', 'c', 'v', 'b', 'n', 'm', ',', '.', '/',
        ].map_values(|c: char| c as u8),
        NORMAL@[55] == '*' as u8 && NORMAL@[57] == ' ' as u8,
        SHIFTED@.subrange(1, 15) == seq![
            '\x1B', '!', '@', '#', '$', '%', '^', '&', '*', '(', ')', '_', '+', '\x08',
        ].map_values(|c: char| c as u8),
        SHIFTED@.subrange(15, 29) == seq![
            '\t', 'Q', 'W', 'E', 'R', 'T', 'Y', 'U', 'I', 'O', 'P', '{', '}', '\n',
        ].map_values(|c: char| c as u8),
        SHIFTED@.subrange(30, 42) == seq![
            'A', 'S', 'D', 'F', 'G', 'H', 'J', 'K', 'L', ':', '"', '~',
        ].map_values(|c: char| c as u8),
        SHIFTED@.subrange(43, 54) == seq![
            '|', 'Z', 'X', 'C', 'V', 'B', 'N', 'M', '<', '>', '?',
        ].map_values(|c: char| c as u8),
        SHIFTED@[55] == '*' as u8 && SHIFTED@[57] == ' ' as u8,
        forall|i: int|
            i == 0 || i == 29 || i == 42 || i == 54 || i == 56 || i == 58 ==> #[trigger] NORMAL@[i]
                == 0 && SHIFTED@[i] == 0,
{
}

} // verus!
