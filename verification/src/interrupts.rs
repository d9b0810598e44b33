//! Interrupt-vector bookkeeping.  The two programmable interrupt
//! controllers are remapped to vectors 32..48, clear of the CPU exception
//! vectors; this module fixes the vector numbers that the hardware lines
//! used here land on.  Loading the descriptor table and talking to the
//! controllers is hardware work and stays outside the library.

use vstd::prelude::*;

verus! {

/// Offset of the primary interrupt controller's first line.
pub const PIC_1_OFFSET: u8 = 32;

/// Offset of the secondary interrupt controller's first line.
pub const PIC_2_OFFSET: u8 = 32 + 8;

/// The hardware interrupt lines in use, by the vector each is remapped to.
#[derive(Debug, Clone, Copy)]
pub enum InterruptIndex {
    /// The timer uses line 0 of the primary controller.
    Timer,
    /// The keyboard uses line 1 of the primary controller.
    Keyboard,
}

impl InterruptIndex {
    /// The vector number of this interrupt: the controller offset plus the
    /// line number.
    pub fn as_u8(self) -> (r: u8)
        ensures
            self is Timer ==> r == PIC_1_OFFSET,
            self is Keyboard ==> r == PIC_1_OFFSET + 1,
    {
        match self {
            InterruptIndex::Timer => PIC_1_OFFSET,
            InterruptIndex::Keyboard => PIC_1_OFFSET + 1,
        }
    }

    /// The vector number widened for indexing the descriptor table.
    pub fn as_usize(self) -> (r: usize)
        ensures
            self is Timer ==> r == PIC_1_OFFSET,
            self is Keyboard ==> r == PIC_1_OFFSET + 1,
    {
        self.as_u8() as usize
    }
}

} // verus!
