//! The dynamic-memory subsystem of a small x86_64 kernel, together with the plain value types
//! that the rest of the kernel shares with it.

use vstd::prelude::*;

/// Heap allocation strategies and the alignment arithmetic they rest on.
pub mod allocator;

/// Indices of the hardware interrupts.
pub mod interrupts;

/// The frames of physical memory that the kernel may use.
pub mod memory;

/// The VGA text buffer: its colors, and the writer that fills it.
pub mod vga_buffer;

verus! {

/// Exit code feed to the isa-debug-exit device of QEMU.
#[derive(Debug, Clone, Copy, PartialEq, Eq, Structural)]
pub enum QemuExitCode {
    /// Exit code on successful test runs. Maps to an exit status 0x21 in host system.
    Success,
    /// Exit code on failed test runs. Maps to an exit status 0x23 in host system.
    Failed,
}

impl QemuExitCode {
    /// The number that is written to the device.
    pub open spec fn code(self) -> u32 {
        match self {
            QemuExitCode::Success => 0x10,
            QemuExitCode::Failed => 0x11,
        }
    }

    /// The number that is written to the device.
    pub fn to_u32(self) -> (r: u32)
        ensures
            r == self.code(),
    {
        match self {
            QemuExitCode::Success => 0x10,
            QemuExitCode::Failed => 0x11,
        }
    }

    /// The status that the QEMU process exits with in the host system once the code is
    /// written: the code shifted left by one bit, with the lowest bit set.
    pub fn host_status(self) -> (r: u32)
        ensures
            r == 2 * self.code() + 1,
            self == QemuExitCode::Success ==> r == 0x21,
            self == QemuExitCode::Failed ==> r == 0x23,
    {
        let code = self.to_u32();
        assert(((code << 1u32) | 1u32) == 2 * code + 1) by (bit_vector)
            requires
                code <= 0x11,
        ;
        (code << 1u32) | 1
    }
}

} // verus!
