//! The serial line used for diagnostics: its ports, the values that set it
//! up, and printing through an output sink.

use crate::shell::{lemma_written_push, print, strings_written, Writer};
use vstd::prelude::*;

verus! {

/// One byte to be written to an I/O port.
#[derive(Debug, Clone, Copy, PartialEq, Eq, Structural)]
pub struct PortWrite {
    pub port: u16,
    pub value: u8,
}

/// The transmit-data port of the serial line.
pub const SERIAL_DATA: u16 = 0x3f8;

/// The line-status port of the serial line.
pub const SERIAL_STATUS: u16 = 0x3fd;

/// The bit of the line status that says that the transmit holding register
/// is empty.
pub const TRANSMIT_EMPTY: u8 = 0x20;

/// The writes that set the serial line up, in order: divisor latch, baud
/// divisor, line control, FIFO control, modem control.
pub open spec fn serial_setup() -> Seq<PortWrite> {
    seq![
        PortWrite { port: 0x3f8, value: 0x03 },
        PortWrite { port: 0x3f9, value: 0x00 },
        PortWrite { port: 0x3fb, value: 0x03 },
        PortWrite { port: 0x3fa, value: 0xc7 },
        PortWrite { port: 0x3fc, value: 0x0b },
    ]
}

/// The writes that set the serial line up, for the caller to perform in
/// order.
pub fn serial_init() -> (writes: [PortWrite; 5])
    ensures
        writes@ == serial_setup(),
{
    let writes = [
        PortWrite { port: SERIAL_DATA, value: 0x03 },
        PortWrite { port: SERIAL_DATA + 1, value: 0x00 },
        PortWrite { port: SERIAL_DATA + 3, value: 0x03 },
        PortWrite { port: SERIAL_DATA + 2, value: 0xc7 },
        PortWrite { port: SERIAL_DATA + 4, value: 0x0b },
    ];
    assert(writes@ =~= serial_setup());
    writes
}

/// Whether a line status allows the next byte to be transmitted.
pub fn transmit_ready(status: u8) -> (ready: bool)
    ensures
        ready == (status & TRANSMIT_EMPTY != 0),
{
    status & TRANSMIT_EMPTY != 0
}

/// Prints a string on the serial sink.
pub fn serial_print<W: Writer>(port: &mut W, s: &str)
    requires
        old(port).wf(),
    ensures
        final(port).wf(),
        W::string_written(*old(port), s@, *final(port)),
{
    print(port, s);
}

/// Prints a string and a line feed on the serial sink.
pub fn serial_println<W: Writer>(port: &mut W, s: &str)
    requires
        old(port).wf(),
    ensures
        final(port).wf(),
        strings_written(*old(port), seq![s@, "\n"@], *final(port)),
{
    print(port, s);
    let ghost mid = *port;
    print(port, "\n");
    proof {
        let none = Seq::<Seq<char>>::empty();
        lemma_written_push(*old(port), none, *old(port), s@, mid);
        lemma_written_push(*old(port), none.push(s@), mid, "\n"@, *port);
        assert(none.push(s@).push("\n"@) =~= seq![s@, "\n"@]);
    }
}

} // verus!
