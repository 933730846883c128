//! Port traffic as values: what the kernel wants written to and read from I/O
//! ports.

use vstd::prelude::*;

verus! {

/// One byte to be written to a port.
#[derive(Clone, Copy)]
pub struct PortWrite {
    pub port: u16,
    pub value: u8,
}

/// One access to a port: a byte written, or a byte to be read.
#[derive(Clone, Copy)]
pub enum PortOp {
    Out { port: u16, value: u8 },
    In { port: u16 },
}

} // verus!
