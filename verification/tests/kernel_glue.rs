use enigma::allocator::heap_page_range;
use enigma::allocator::HEAP_SIZE;
use enigma::allocator::HEAP_START;
use enigma::interrupts::InterruptIndex;
use enigma::interrupts::PIC_1_OFFSET;
use enigma::interrupts::PIC_2_OFFSET;
use enigma::test_runner;
use enigma::vga_buffer::Color;
use enigma::vga_buffer::ColorCode;
use enigma::QemuExitCode;
use enigma::Testable;

#[test]
fn trivial_assertion() {
    assert_eq!(1, 1);
}

#[test]
fn interrupt_vectors() {
    assert_eq!(PIC_1_OFFSET, 32);
    assert_eq!(PIC_2_OFFSET, 40);
    assert_eq!(InterruptIndex::Timer.as_u8(), 32);
    assert_eq!(InterruptIndex::Keyboard.as_u8(), 33);
    assert_eq!(InterruptIndex::Timer.as_usize(), 32);
    assert_eq!(InterruptIndex::Keyboard.as_usize(), 33);
}

#[test]
fn qemu_exit_codes() {
    assert_eq!(QemuExitCode::Success.as_u32(), 0x10);
    assert_eq!(QemuExitCode::Failed.as_u32(), 0x11);
    assert_ne!(QemuExitCode::Success, QemuExitCode::Failed);
}

#[test]
fn color_codes() {
    // background in the high four bits, foreground in the low four
    assert_eq!(ColorCode::new(Color::Yellow, Color::Black).0, 14);
    assert_eq!(ColorCode::new(Color::White, Color::Blue).0, 16 + 15);
    assert_eq!(ColorCode::new(Color::LightRed, Color::Black).0, 12);
    assert_eq!(ColorCode::new(Color::Black, Color::White).0, 240);
}

struct Doubling(u64);

impl Testable for Doubling {
    fn run(&self) {
        assert_eq!(self.0 * 2, self.0 + self.0);
    }
}

#[test]
fn test_runner_runs_all() {
    let tests = vec![Doubling(1), Doubling(2), Doubling(3)];
    test_runner(&tests);
}

#[test]
fn heap_pages() {
    // the heap occupies 25 pages of 4 KiB at its fixed virtual address
    let (first, last) = heap_page_range(HEAP_START, HEAP_SIZE as u64);
    assert_eq!(first, HEAP_START / 4096);
    assert_eq!(last - first + 1, 25);
}
