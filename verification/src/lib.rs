//! The verified core of MOS, a small x86-64 teaching kernel: memory
//! bookkeeping, the text console, keyboard decoding, the ACPI walk, the
//! descriptor tables, device command sequences and the snake game.
//!
//! Nothing in this crate touches hardware. Memory that the machine shares
//! with devices comes in as a byte slice, port traffic goes out as values, and
//! what a device answered comes back in as an argument.

pub mod acpi;
pub mod bits;
pub mod board;
pub mod boot;
pub mod canvas;
pub mod console;
pub mod font;
pub mod game;
pub mod gdt;
pub mod heap;
pub mod interrupts;
pub mod keyboard;
pub mod mm;
pub mod pic;
pub mod port;
pub mod rng;
pub mod rules;
pub mod serial;
pub mod startup;
