//! A small kernel's event-driven display: the event queue, the timer
//! registry, the sheet compositor, and the main loop's handling of events.

pub mod allocator;
pub mod desktop;
pub mod dsc_tbl;
pub mod event;
pub mod fifo;
pub mod font;
pub mod interrupts;
pub mod memory;
pub mod schedule;
pub mod timer;
pub mod uptime;
pub mod util;
pub mod vga;
pub mod vga_graphic;
pub mod vga_text;

use vstd::prelude::*;

verus! {

/// With what code the emulator is left when the kernel's tests are over.
#[derive(Debug, Clone, Copy, PartialEq, Eq, Structural)]
pub enum QemuExitCode {
    Success,
    Failed,
}

impl QemuExitCode {
    /// The value that is written to the emulator's exit port.
    pub fn code(self) -> (code: u32)
        ensures
            code == (match self {
                QemuExitCode::Success => 0x10u32,
                QemuExitCode::Failed => 0x11u32,
            }),
    {
        match self {
            QemuExitCode::Success => 0x10,
            QemuExitCode::Failed => 0x11,
        }
    }
}

} // verus!
