use vstd::prelude::*;

verus! {

/// Offset of the first PIC (Programmable Interrupt Controller).
///
/// The first 32 slots of the Interrupt Descriptor Table is occupied by CPU exceptions hence must
/// be avoided. Each PIC occupies 8 slots starting from its offset.
pub const PIC_1_OFFSET: u8 = 32;

/// Offset of the second PIC (Programmable Interrupt Controller).
pub const PIC_2_OFFSET: u8 = PIC_1_OFFSET + 8;

/// Indices into the Interrupt Descriptor Table of the interrupts originated from outside of the
/// CPU: the lines of the first PIC, counted from its offset.
#[derive(Debug, Clone, Copy, PartialEq, Eq, Structural)]
pub enum InterruptIndex {
    /// The timer, on line 0 of the first PIC.
    Timer,
    /// The keyboard, on line 1 of the first PIC.
    Keyboard,
}

impl InterruptIndex {
    /// The slot of the Interrupt Descriptor Table that the interrupt arrives at.
    pub open spec fn index(self) -> int {
        match self {
            InterruptIndex::Timer => PIC_1_OFFSET as int,
            InterruptIndex::Keyboard => PIC_1_OFFSET + 1,
        }
    }

    /// Convert the interrupt index to u8.
    pub fn to_u8(self) -> (r: u8)
        ensures
            r == self.index(),
            PIC_1_OFFSET <= r < PIC_2_OFFSET,
    {
        match self {
            InterruptIndex::Timer => PIC_1_OFFSET,
            InterruptIndex::Keyboard => PIC_1_OFFSET + 1,
        }
    }

    /// Convert the interrupt index to usize.
    pub fn to_usize(self) -> (r: usize)
        ensures
            r == self.index(),
    {
        self.to_u8() as usize
    }
}

} // verus!
