use mos_kernel::gdt::{
    init as gdt_init, table, Tss, KERNEL_CODE_DESC, KERNEL_CODE_SELECTOR, KERNEL_DATA_DESC,
    KERNEL_DATA_SELECTOR, TSS_SELECTOR,
};
use mos_kernel::interrupts::{init as idt_init, Gate, Stubs, Ticks};
use mos_kernel::keyboard::{
    on_interrupt, pop_key, KeyQueue, Keyboard, KEY_DOWN, KEY_LEFT, KEY_RIGHT, KEY_UP,
};
use mos_kernel::pic::{
    init_timer, irq0_masked, mask_port, master_irr, pit_alive, pit_count, pit_count_ops,
    pit_divisor, pit_ok, remap, send_eoi, unmask, Pit,
};
use mos_kernel::port::{PortOp, PortWrite};
use mos_kernel::serial::{SerialPort, Transmission};

fn pairs(writes: &[PortWrite]) -> Vec<(u16, u8)> {
    writes.iter().map(|w| (w.port, w.value)).collect()
}

fn sent(s: &str) -> Vec<u8> {
    let line = SerialPort::new(SerialPort::COM1);
    let mut tx = Transmission::start();
    let mut out = Vec::new();
    while let Some(b) = line.send_str(s, &mut tx) {
        out.push(b);
    }
    out
}

#[test]
fn the_serial_line_is_set_up() {
    let line = SerialPort::new(SerialPort::COM1);
    assert_eq!(
        pairs(&line.init()),
        [
            (0x3F9, 0x00),
            (0x3FB, 0x80),
            (0x3F8, 0x03),
            (0x3F9, 0x00),
            (0x3FB, 0x03),
            (0x3FA, 0xC7),
            (0x3FC, 0x0B),
        ]
    );
    assert_eq!(line.status_port(), 0x3FD);
}

#[test]
fn a_byte_waits_for_the_line() {
    let line = SerialPort::new(0x2F8);
    assert!(line.send_raw(b'x', 0x00).is_none());
    assert!(line.send_raw(b'x', 0xDF).is_none());
    let w = line.send_raw(b'x', 0x20).unwrap();
    assert_eq!((w.port, w.value), (0x2F8, b'x'));
}

#[test]
fn line_feeds_bring_carriage_returns() {
    assert_eq!(sent(""), b"");
    assert_eq!(sent("plain"), b"plain");
    assert_eq!(sent("a\nb\n\n"), b"a\r\nb\r\n\r\n");
    assert_eq!(sent("\r\n"), b"\r\r\n");
    assert_eq!(sent("\u{9664}"), "\u{9664}".as_bytes());
}

#[test]
fn the_controllers_are_remapped_and_silenced() {
    assert_eq!(
        pairs(&remap()),
        [
            (0x20, 0x11),
            (0xA0, 0x11),
            (0x21, 32),
            (0xA1, 40),
            (0x21, 0x04),
            (0xA1, 0x02),
            (0x21, 0x01),
            (0xA1, 0x01),
            (0x21, 0xFF),
            (0xA1, 0xFF),
        ]
    );
}

#[test]
fn a_line_is_let_through_alone() {
    assert_eq!((mask_port(0), mask_port(7), mask_port(8), mask_port(15)), (0x21, 0x21, 0xA1, 0xA1));
    let w = unmask(0, 0xFF);
    assert_eq!((w.port, w.value), (0x21, 0xFE));
    let w = unmask(1, 0xFE);
    assert_eq!((w.port, w.value), (0x21, 0xFC));
    let w = unmask(12, 0xFF);
    assert_eq!((w.port, w.value), (0xA1, 0xEF));
    assert_eq!(unmask(3, 0x00).value, 0x00);
}

#[test]
fn receipts_go_to_both_controllers_for_the_second() {
    let (second, first) = send_eoi(1);
    assert!(second.is_none());
    assert_eq!((first.port, first.value), (0x20, 0x20));
    let (second, first) = send_eoi(8);
    let second = second.unwrap();
    assert_eq!((second.port, second.value), (0xA0, 0x20));
    assert_eq!((first.port, first.value), (0x20, 0x20));
}

#[test]
fn the_timer_rings_a_hundred_times_a_second() {
    let mut pit = Pit::new();
    assert_eq!(pit_divisor(&pit), 0);
    assert!(!pit_ok(&pit));
    // 1193182 / 100 = 11931 = 0x2E9B.
    assert_eq!(pairs(&init_timer(&mut pit, 100)), [(0x43, 0x34), (0x40, 0x9B), (0x40, 0x2E)]);
    assert_eq!(pit_divisor(&pit), 11931);
    assert_eq!(pit_count(0x9B, 0x2E), 0x2E9B);
    assert!(pit_alive(&mut pit, 5, 4));
    assert!(pit_ok(&pit));
    assert!(!pit_alive(&mut pit, 5, 5));
    assert!(!pit_ok(&pit));
}

#[test]
fn counters_are_latched_before_they_are_read() {
    let ops = pit_count_ops();
    assert!(matches!(ops[0], PortOp::Out { port: 0x43, value: 0 }));
    assert!(matches!(ops[1], PortOp::In { port: 0x40 }));
    assert!(matches!(ops[2], PortOp::In { port: 0x40 }));
    let ops = master_irr();
    assert!(matches!(ops[0], PortOp::Out { port: 0x20, value: 0x0A }));
    assert!(matches!(ops[1], PortOp::In { port: 0x20 }));
    assert!(irq0_masked(0xFF) && irq0_masked(0x01) && !irq0_masked(0xFE));
}

#[test]
fn descriptors_are_laid_out() {
    assert_eq!((KERNEL_CODE_SELECTOR, KERNEL_DATA_SELECTOR, TSS_SELECTOR), (8, 16, 24));
    let rows = table(0xFFFF_FFFF_0012_3456, 0x67);
    assert_eq!(
        rows,
        [0, KERNEL_CODE_DESC, KERNEL_DATA_DESC, 0x0000_8912_3456_0067, 0xFFFF_FFFF]
    );
    // Four bits of a long limit go to the top.
    assert_eq!(table(0, 0xF_FFFF)[3], 0x000F_8900_0000_FFFF);
}

#[test]
fn the_descriptor_holds_the_whole_address() {
    for base in [0xFFFF_FFFF_8010_0000u64, 0x1234_5678_9ABC_DEF0, 0, u64::MAX] {
        let mut tss = Tss::empty(0x70);
        let rows = gdt_init(&mut tss, 0x5000, 0x4000, base, 0x70);
        let read =
            ((rows[3] >> 16) & 0xFF_FFFF) | ((rows[3] >> 56) << 24) | (rows[4] << 32);
        assert_eq!(read, base);
        assert_eq!(rows[3] & 0xFFFF, 0x6F);
        assert_eq!((rows[3] >> 40) & 0xFF, 0x89);
        assert_eq!((rows[3] >> 48) & 0xF, 0);
        assert_eq!(rows[..3], [0, KERNEL_CODE_DESC, KERNEL_DATA_DESC]);
        assert_eq!(tss.ist[0], 0x9000);
    }
    assert_eq!(table(0xFFFF_FFFF_8010_0000, 0x6F)[3], 0x8000_8910_0000_006F);
}

#[test]
fn the_spare_stack_is_used_from_its_end() {
    let mut tss = Tss::empty(0x70);
    assert_eq!(tss.iomap_base, 0x70);
    assert_eq!(tss.ist, [0; 7]);
    let rows = gdt_init(&mut tss, 0x5000, 0x4000, 0x1000, 0x70);
    assert_eq!(tss.ist, [0x9000, 0, 0, 0, 0, 0, 0]);
    assert_eq!(tss.rsp, [0; 3]);
    assert_eq!(rows, table(0x1000, 0x6F));
    tss.set_ist(6, 1);
    assert_eq!(tss.ist, [0x9000, 0, 0, 0, 0, 0, 1]);
}

#[test]
fn gates_point_at_their_handlers() {
    let stubs = Stubs {
        divide_error: 0xFFFF_FFFF_8000_1000,
        breakpoint: 0xFFFF_FFFF_8000_2000,
        invalid_opcode: 0xFFFF_FFFF_8000_3000,
        double_fault: 0xFFFF_FFFF_8123_4567,
        unexpected: 0xFFFF_FFFF_8000_5000,
        timer: 0xFFFF_FFFF_8000_6000,
        keyboard: 0xFFFF_FFFF_8000_7000,
    };
    let mut idt = [Gate::missing(); 256];
    idt_init(&mut idt, &stubs);
    assert_eq!((idt[8].low, idt[8].high), (0x8123_8E01_0008_4567, 0xFFFF_FFFF));
    assert_eq!((idt[0].low, idt[0].high), (0x8000_8E00_0008_1000, 0xFFFF_FFFF));
    assert_eq!(idt[3].low, 0x8000_8E00_0008_2000);
    assert_eq!(idt[6].low, 0x8000_8E00_0008_3000);
    for i in [1, 2, 4, 5, 7, 9, 31] {
        assert_eq!(idt[i].low, 0x8000_8E00_0008_5000);
    }
    assert_eq!(idt[32].low, 0x8000_8E00_0008_6000);
    assert_eq!(idt[33].low, 0x8000_8E00_0008_7000);
    assert_eq!((idt[34].low, idt[255].low, idt[255].high), (0, 0, 0));
    let mut g = Gate::missing();
    g.set_handler(0, 0x0F);
    assert_eq!(g.low, 0x0000_8E07_0008_0000);
}

#[test]
fn seconds_are_reported_every_hundred_ticks() {
    let mut t = Ticks::new();
    let reports: Vec<u64> = (0..250).filter_map(|_| t.on_timer()).collect();
    assert_eq!(reports, [1, 2]);
    assert_eq!(t.ticks(), 250);
}

fn typed(codes: &[u8]) -> Vec<u8> {
    let mut kb = Keyboard::new();
    for &c in codes {
        on_interrupt(&mut kb, c);
    }
    let mut keys = Vec::new();
    while let Some(k) = pop_key(&mut kb) {
        keys.push(k);
    }
    keys
}

#[test]
fn scan_codes_become_characters() {
    // h, i, space, enter, with their releases.
    assert_eq!(typed(&[0x23, 0xA3, 0x17, 0x97, 0x39, 0xB9, 0x1C]), b"hi \n");
    // Both shift keys, held and let go.
    assert_eq!(typed(&[0x2A, 0x1E, 0xAA, 0x1E, 0x36, 0x02, 0xB6, 0x02]), b"Aa!1");
    // Codes without a character.
    assert_eq!(typed(&[0x00, 0x1D, 0x38, 0x3A, 0x3B, 0x7F]), b"");
}

#[test]
fn arrows_come_with_a_prefix() {
    assert_eq!(
        typed(&[0xE0, 0x4B, 0xE0, 0x4D, 0xE0, 0x48, 0xE0, 0x50]),
        [KEY_LEFT, KEY_RIGHT, KEY_UP, KEY_DOWN]
    );
    // Releases and other keys behind the prefix are silent, and end it.
    assert_eq!(typed(&[0xE0, 0xCB, 0xE0, 0x47, 0x1E]), b"a");
    // A shift code behind the prefix does not count as shift.
    assert_eq!(typed(&[0xE0, 0x2A, 0x1E]), b"a");
    // A second prefix is only another key behind the first.
    assert!(typed(&[0xE0, 0xE0, 0x48]).is_empty());
}

#[test]
fn the_queue_keeps_order_and_drops_what_is_too_much() {
    let mut q = KeyQueue::new();
    assert_eq!(q.pop_key(), None);
    for k in 0..40 {
        q.push_key(k);
    }
    for k in 0..31 {
        assert_eq!(q.pop_key(), Some(k));
    }
    assert_eq!(q.pop_key(), None);
    // Around the end of the ring.
    for round in 0..10u8 {
        for k in 0..7 {
            q.push_key(round * 7 + k);
        }
        for k in 0..7 {
            assert_eq!(q.pop_key(), Some(round * 7 + k));
        }
    }
}
