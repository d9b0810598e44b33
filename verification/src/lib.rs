//! Dynamic-memory subsystem of a freestanding kernel: three interchangeable
//! allocation strategies (a monotonic bump allocator, a coalescing free-list
//! allocator, and a segregated fixed-size-block allocator with free-list
//! fallback) over a fixed heap region, with machine-checked contracts for
//! alignment, bounds, non-overlap of live allocations, reuse of freed
//! blocks, and exact success and failure conditions.

pub mod allocator;
pub mod interrupts;
pub mod vga_buffer;

use vstd::prelude::*;

verus! {

/// Code reported to the emulator on exit, chosen apart from its own codes
/// so test runs can tell success from failure.
#[derive(Debug, Clone, Copy, PartialEq, Eq, Structural)]
pub enum QemuExitCode {
    Success,
    Failed,
}

impl QemuExitCode {
    /// The value written to the emulator's exit port.
    pub fn as_u32(self) -> (r: u32)
        ensures
            self is Success ==> r == 0x10,
            self is Failed ==> r == 0x11,
    {
        match self {
            QemuExitCode::Success => 0x10,
            QemuExitCode::Failed => 0x11,
        }
    }
}

/// Something the test harness can run.  Kernel test functions implement
/// this; a run that returns means the test passed (a failure panics).
pub trait Testable {
    fn run(&self);
}

/// Runs every given test in order.  Reporting and the emulator exit stay
/// with the harness around the library.
pub fn test_runner<T: Testable>(tests: &Vec<T>) {
    let mut i: usize = 0;
    while i < tests.len()
        decreases tests.len() - i,
    {
        tests[i].run();
        i = i + 1;
    }
}

} // verus!
