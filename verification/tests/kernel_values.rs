use rust_kernel::interrupts::{InterruptIndex, PIC_1_OFFSET, PIC_2_OFFSET};
use rust_kernel::vga_buffer::{Color, ColorCode};
use rust_kernel::QemuExitCode;

#[test]
fn interrupt_indices() {
    assert_eq!(PIC_1_OFFSET, 32);
    assert_eq!(PIC_2_OFFSET, 40);
    assert_eq!(InterruptIndex::Timer.to_u8(), 32);
    assert_eq!(InterruptIndex::Keyboard.to_u8(), 33);
    assert_eq!(InterruptIndex::Timer.to_usize(), 32);
    assert_eq!(InterruptIndex::Keyboard.to_usize(), 33);
}

#[test]
fn qemu_exit_codes() {
    assert_eq!(QemuExitCode::Success.to_u32(), 0x10);
    assert_eq!(QemuExitCode::Failed.to_u32(), 0x11);
    assert_eq!(QemuExitCode::Success.host_status(), 0x21);
    assert_eq!(QemuExitCode::Failed.host_status(), 0x23);
}

#[test]
fn color_numbers() {
    assert_eq!(Color::Black.to_u8(), 0);
    assert_eq!(Color::LightGray.to_u8(), 7);
    assert_eq!(Color::DarkGray.to_u8(), 8);
    assert_eq!(Color::Yellow.to_u8(), 14);
    assert_eq!(Color::White.to_u8(), 15);
}

#[test]
fn color_codes() {
    assert_eq!(ColorCode::new(Color::Yellow, Color::Black).to_u8(), 0x0e);
    assert_eq!(ColorCode::new(Color::White, Color::Blue).to_u8(), 0x1f);
    assert_eq!(ColorCode::new(Color::Black, Color::LightGray).to_u8(), 0x70);
    // a light background becomes its dark variant
    assert_eq!(ColorCode::new(Color::Red, Color::White).to_u8(), 0x74);
    assert_eq!(ColorCode::new(Color::Red, Color::DarkGray).to_u8(), 0x04);
}

#[test]
fn color_code_blink() {
    assert_eq!(ColorCode::new(Color::Yellow, Color::Black).blink().to_u8(), 0x8e);
    assert_eq!(ColorCode::new(Color::Red, Color::White).blink().to_u8(), 0xf4);
    let code = ColorCode::new(Color::Green, Color::Cyan);
    assert_eq!(code.blink().blink(), code.blink());
    assert_eq!(ColorCode::from_u8(0x8e), ColorCode::new(Color::Yellow, Color::Black).blink());
    assert_eq!(ColorCode::from_u8(0x1f).to_u8(), 0x1f);
}
