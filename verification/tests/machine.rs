use chip8::cpu::Chip8;
use chip8::model::{ExecutionEffect, Fault};

fn pixel(c: &Chip8, x: usize, y: usize) -> u8 {
    c.display()[y * 64 + x]
}

#[test]
fn first_fetch_yields_first_two_bytes() {
    let mut c = Chip8::new(true);
    c.init();
    c.load_bin(&[0x12, 0x34, 0x56, 0x78]).unwrap();
    assert_eq!(c.pc(), 0x200);
    assert_eq!(c.fetch(), Ok(0x1234));
    assert_eq!(c.pc(), 0x202);
    assert_eq!(c.fetch(), Ok(0x5678));
}

#[test]
fn load_rejects_overlong_program() {
    let mut c = Chip8::new(true);
    c.init();
    let big = vec![0u8; 3585];
    assert_eq!(c.load_bin(&big), Err(Fault::ProgramTooLarge));
    let just_fits = vec![0u8; 3584];
    assert_eq!(c.load_bin(&just_fits), Ok(()));
}

#[test]
fn fetch_past_top_of_memory_faults() {
    let mut c = Chip8::new(true);
    c.init();
    c.execute(0x1FFE).unwrap();
    assert_eq!(c.pc(), 0xFFE);
    assert!(c.fetch().is_ok(), "the last full word is readable");
    assert_eq!(c.pc(), 0x1000);
    assert_eq!(c.fetch(), Err(Fault::AddressOverrun));
    assert_eq!(c.pc(), 0x1000, "a faulting fetch moves nothing");
}

#[test]
fn self_jump_is_detected_first_time() {
    let mut c = Chip8::new(true);
    c.init();
    c.load_bin(&[0x12, 0x00]).unwrap();
    let op = c.fetch().unwrap();
    assert_eq!(op, 0x1200);
    assert_eq!(c.execute(op), Ok(ExecutionEffect::JumpToSelf));
    assert_eq!(c.pc(), 0x200);
}

#[test]
fn jump_elsewhere_is_no_signal() {
    let mut c = Chip8::new(true);
    c.init();
    c.load_bin(&[0x12, 0x40]).unwrap();
    let op = c.fetch().unwrap();
    assert_eq!(c.execute(op), Ok(ExecutionEffect::NoEffect));
    assert_eq!(c.pc(), 0x240);
}

#[test]
fn call_and_return() {
    let mut c = Chip8::new(true);
    c.init();
    c.load_bin(&[0x22, 0x06, 0x00, 0x00, 0x00, 0x00, 0x00, 0xEE]).unwrap();
    let op = c.fetch().unwrap();
    assert_eq!(op, 0x2206);
    c.execute(op).unwrap();
    assert_eq!(c.pc(), 0x206);
    let op = c.fetch().unwrap();
    assert_eq!(op, 0x00EE);
    c.execute(op).unwrap();
    assert_eq!(c.pc(), 0x202, "returned past the call instruction");
}

#[test]
fn wait_for_key_blocks_then_consumes_latch() {
    let mut c = Chip8::new(true);
    c.init();
    c.load_bin(&[0xF3, 0x0A, 0x00, 0x00]).unwrap();
    for _ in 0..3 {
        let op = c.fetch().unwrap();
        assert_eq!(op, 0xF30A);
        assert_eq!(c.execute(op), Ok(ExecutionEffect::WaitingForKey));
        assert_eq!(c.pc(), 0x200, "net effect leaves the program counter in place");
    }
    c.key_down(0xB);
    let op = c.fetch().unwrap();
    assert_eq!(c.execute(op), Ok(ExecutionEffect::NoEffect));
    assert_eq!(c.reg(3), 0xB, "V[X] holds the pressed key");
    assert_eq!(c.pc(), 0x202, "execution resumes");
    // The latch was consumed: waiting resumes until the next key event.
    assert_eq!(c.execute(0xF30A), Ok(ExecutionEffect::WaitingForKey));
}

#[test]
fn timers_tick_down_and_stop_at_zero() {
    let mut c = Chip8::new(true);
    c.init();
    c.execute(0x6003).unwrap();
    c.execute(0xF015).unwrap();
    assert_eq!(c.delay_timer(), 3);
    c.execute(0xF007).unwrap();
    assert_eq!(c.reg(0), 3, "FX07 reads the delay timer");
    for expect in [2, 1, 0, 0, 0] {
        c.decrement_timers();
        assert_eq!(c.delay_timer(), expect, "never below zero");
    }
    assert_eq!(c.sound_timer(), 0);
    c.decrement_timers();
    assert_eq!(c.sound_timer(), 0);
}

#[test]
fn sound_timer_signals_start() {
    let mut c = Chip8::new(true);
    c.init();
    c.execute(0x6002).unwrap();
    assert_eq!(c.execute(0xF018), Ok(ExecutionEffect::Sound));
    assert_eq!(c.sound_timer(), 2);
    c.execute(0x6000).unwrap();
    assert_eq!(c.execute(0xF018), Ok(ExecutionEffect::NoEffect), "zero starts no sound");
    assert_eq!(c.sound_timer(), 0);
}

#[test]
fn draw_twice_clears_and_collides() {
    let mut c = Chip8::new(true);
    c.init();
    // I = 0x208 points at the sprite bytes 0xFF 0x81 inside the image.
    c.load_bin(&[0xA2, 0x08, 0x60, 0x05, 0x61, 0x03, 0xD0, 0x12, 0xFF, 0x81]).unwrap();
    for _ in 0..4 {
        let op = c.fetch().unwrap();
        c.execute(op).unwrap();
    }
    assert_eq!(c.reg(0xF), 0, "first draw erases nothing");
    assert_eq!(pixel(&c, 5, 3), 1);
    assert_eq!(pixel(&c, 12, 3), 1);
    assert_eq!(pixel(&c, 5, 4), 1);
    assert_eq!(pixel(&c, 6, 4), 0);
    assert_eq!(pixel(&c, 12, 4), 1);
    // Same sprite, same coordinates, drawn again.
    assert_eq!(c.execute(0xD012), Ok(ExecutionEffect::DisplayUpdate));
    assert_eq!(c.reg(0xF), 1, "second draw erases lit pixels");
    assert!(c.display().iter().all(|&p| p == 0), "framebuffer back to all zero");
}

#[test]
fn draw_wraps_at_the_edges() {
    let mut c = Chip8::new(true);
    c.init();
    c.load_bin(&[0xA2, 0x08, 0x60, 0x3E, 0x61, 0x1F, 0xD0, 0x12, 0xFF, 0x00]).unwrap();
    for _ in 0..4 {
        let op = c.fetch().unwrap();
        c.execute(op).unwrap();
    }
    // Row at y = 31; columns 62, 63 then wrapping to 0..5.
    assert_eq!(pixel(&c, 62, 31), 1);
    assert_eq!(pixel(&c, 63, 31), 1);
    assert_eq!(pixel(&c, 0, 31), 1);
    assert_eq!(pixel(&c, 5, 31), 1);
    assert_eq!(pixel(&c, 6, 31), 0);
}

#[test]
fn clear_screen_blanks_the_display() {
    let mut c = Chip8::new(true);
    c.init();
    c.load_bin(&[0xA2, 0x08, 0x60, 0x00, 0x61, 0x00, 0xD0, 0x11, 0xFF, 0x00]).unwrap();
    for _ in 0..4 {
        let op = c.fetch().unwrap();
        c.execute(op).unwrap();
    }
    assert!(c.display().iter().any(|&p| p == 1));
    assert_eq!(c.execute(0x00E0), Ok(ExecutionEffect::NoEffect));
    assert!(c.display().iter().all(|&p| p == 0));
}

#[test]
fn font_glyph_draws_its_pattern() {
    let mut c = Chip8::new(true);
    c.init();
    c.execute(0x6000).unwrap();
    c.execute(0xF029).unwrap();
    assert_eq!(c.index_reg(), 0);
    c.execute(0x6100).unwrap();
    c.execute(0xD015).unwrap();
    // Glyph '0': 0xF0 / 0x90 / 0x90 / 0x90 / 0xF0.
    assert_eq!([pixel(&c, 0, 0), pixel(&c, 1, 0), pixel(&c, 2, 0), pixel(&c, 3, 0), pixel(&c, 4, 0)],
               [1, 1, 1, 1, 0]);
    assert_eq!([pixel(&c, 0, 1), pixel(&c, 1, 1), pixel(&c, 2, 1), pixel(&c, 3, 1)],
               [1, 0, 0, 1]);
    assert_eq!([pixel(&c, 0, 4), pixel(&c, 1, 4), pixel(&c, 2, 4), pixel(&c, 3, 4)],
               [1, 1, 1, 1]);
}

#[test]
fn register_copy_and_delay_roundtrip() {
    let mut c = Chip8::new(true);
    c.init();
    c.execute(0x607B).unwrap();
    c.execute(0x8100).unwrap();
    assert_eq!(c.reg(1), 0x7B);
    c.execute(0xF115).unwrap();
    c.execute(0xF207).unwrap();
    assert_eq!(c.reg(2), 0x7B);
}
