//! Console subsystem of a small bare-metal kernel: a keyboard ring buffer, a
//! text-mode display model, a line-editing shell, the boot ordering rules for
//! interrupt delivery, and two small collaborators (a run-length byte codec and
//! a coordinate classifier).

pub mod boot;
pub mod interrupts;
pub mod keyboard;
pub mod serial;
pub mod shell;
pub mod tri_compress;
pub mod tri_motor;
pub mod vga;

pub use serial::{serial_init, serial_print, serial_println};
