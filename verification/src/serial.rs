//! The serial port: its registers and how it is set up.

use vstd::prelude::*;

verus! {

/// Bold cyan: the name of a subsystem.
pub const TAG: &'static str = "\x1b[1;36m";

/// Reset all attributes.
pub const RST: &'static str = "\x1b[0m";

/// Green: success.
pub const OK: &'static str = "\x1b[32m";

/// Yellow: numbers.
pub const STAT: &'static str = "\x1b[33m";

/// Dim: details.
pub const VRB: &'static str = "\x1b[2m";

/// Bold green: final success.
pub const WIN: &'static str = "\x1b[1;32m";

/// The base port of the first serial port.
pub const COM1: u16 = 0x3F8;

/// Received data.
pub const OFF_RBR: u16 = 0;

/// Data to transmit.
pub const OFF_THR: u16 = 0;

/// Interrupt enable.
pub const OFF_IER: u16 = 1;

/// FIFO control.
pub const OFF_FCR: u16 = 2;

/// Line control.
pub const OFF_LCR: u16 = 3;

/// Modem control.
pub const OFF_MCR: u16 = 4;

/// Line status.
pub const OFF_LSR: u16 = 5;

/// A serial port at a base port.
#[derive(Clone, Copy, Debug, PartialEq, Eq, Structural)]
pub struct SerialPort {
    pub base: u16,
}

impl SerialPort {
    pub fn new(base: u16) -> (p: SerialPort)
        ensures
            p.base == base,
    {
        SerialPort { base }
    }

    /// What sets the port to 115200 baud, 8 data bits, no parity and one stop
    /// bit, with its FIFO on and interrupts off: ports and values, in order.
    pub fn init(&self) -> (v: Vec<(u16, u8)>)
        requires
            self.base + OFF_LSR <= u16::MAX,
        ensures
            v@ == seq![
                ((self.base + 1) as u16, 0x00u8),
                ((self.base + 3) as u16, 0x80),
                (self.base, 0x01),
                ((self.base + 1) as u16, 0x00),
                ((self.base + 3) as u16, 0x03),
                ((self.base + 2) as u16, 0xC7),
                ((self.base + 4) as u16, 0x0B),
            ],
    {
        let mut v: Vec<(u16, u8)> = Vec::new();
        v.push((self.base + OFF_IER, 0x00));
        v.push((self.base + OFF_LCR, 0x80));
        v.push((self.base, 0x01));
        v.push((self.base + OFF_IER, 0x00));
        v.push((self.base + OFF_LCR, 0x03));
        v.push((self.base + OFF_FCR, 0xC7));
        v.push((self.base + OFF_MCR, 0x0B));
        assert(v@ =~= seq![
            ((self.base + 1) as u16, 0x00u8),
            ((self.base + 3) as u16, 0x80),
            (self.base, 0x01),
            ((self.base + 1) as u16, 0x00),
            ((self.base + 3) as u16, 0x03),
            ((self.base + 2) as u16, 0xC7),
            ((self.base + 4) as u16, 0x0B),
        ]);
        v
    }
}

/// A byte was received, by the line status.
pub fn data_ready(lsr: u8) -> (r: bool)
    ensures
        r == (lsr % 2 == 1),
{
    lsr % 2 == 1
}

/// A byte can be transmitted, by the line status.
pub fn can_transmit(lsr: u8) -> (r: bool)
    ensures
        r == (lsr / 0x20 % 2 == 1),
{
    lsr / 0x20 % 2 == 1
}

} // verus!
