use chip8::cpu::Chip8;
use chip8::model::{ExecutionEffect, Fault};
use chip8::decode::{nib_hi, nib_x, nib_y, nib_n, low_byte, low_tribble};

fn machine(modern: bool) -> Chip8 {
    let mut c = Chip8::new(modern);
    c.init();
    c
}

#[test]
fn nibble_decomposition_positions() {
    let op: u16 = 0xD123;
    assert_eq!(nib_hi(op), 0xD);
    assert_eq!(nib_x(op), 0x1);
    assert_eq!(nib_y(op), 0x2);
    assert_eq!(nib_n(op), 0x3);
    assert_eq!(low_byte(op), 0x23);
    assert_eq!(low_tribble(op), 0x123);
    assert_eq!(nib_hi(0x0000), 0);
    assert_eq!(low_tribble(0xFFFF), 0xFFF);
    assert_eq!(low_byte(0xABCD), 0xCD);
}

#[test]
fn set_and_add_immediate_wraps() {
    let mut c = machine(true);
    assert_eq!(c.execute(0x6005), Ok(ExecutionEffect::NoEffect));
    assert_eq!(c.reg(0), 0x05);
    assert_eq!(c.execute(0x70FF), Ok(ExecutionEffect::NoEffect));
    assert_eq!(c.reg(0), 0x04);
    assert_eq!(c.reg(0xF), 0, "7XNN sets no flag");
}

#[test]
fn add_registers_sets_carry() {
    let mut c = machine(true);
    c.execute(0x60FF).unwrap();
    c.execute(0x6101).unwrap();
    assert_eq!(c.execute(0x8014), Ok(ExecutionEffect::NoEffect));
    assert_eq!(c.reg(0), 0x00);
    assert_eq!(c.reg(0xF), 1);

    let mut c = machine(true);
    c.execute(0x6001).unwrap();
    c.execute(0x6101).unwrap();
    c.execute(0x8014).unwrap();
    assert_eq!(c.reg(0), 0x02);
    assert_eq!(c.reg(0xF), 0);
}

#[test]
fn sub_registers_sets_borrow_flag() {
    let mut c = machine(true);
    c.execute(0x6005).unwrap();
    c.execute(0x6103).unwrap();
    c.execute(0x8015).unwrap();
    assert_eq!(c.reg(0), 0x02);
    assert_eq!(c.reg(0xF), 1, "no borrow");

    let mut c = machine(true);
    c.execute(0x6003).unwrap();
    c.execute(0x6105).unwrap();
    c.execute(0x8015).unwrap();
    assert_eq!(c.reg(0), 0xFE);
    assert_eq!(c.reg(0xF), 0, "borrow");
}

#[test]
fn sub_reversed_registers() {
    let mut c = machine(true);
    c.execute(0x6003).unwrap();
    c.execute(0x6105).unwrap();
    c.execute(0x8017).unwrap();
    assert_eq!(c.reg(0), 0x02);
    assert_eq!(c.reg(0xF), 1);
}

#[test]
fn logic_ops() {
    let mut c = machine(true);
    c.execute(0x60F0).unwrap();
    c.execute(0x613C).unwrap();
    c.execute(0x8011).unwrap();
    assert_eq!(c.reg(0), 0xFC);
    c.execute(0x60F0).unwrap();
    c.execute(0x8012).unwrap();
    assert_eq!(c.reg(0), 0x30);
    c.execute(0x60F0).unwrap();
    c.execute(0x8013).unwrap();
    assert_eq!(c.reg(0), 0xCC);
    c.execute(0x8010).unwrap();
    assert_eq!(c.reg(0), 0x3C);
}

#[test]
fn shift_right_diverges_between_modes() {
    // Identical register inputs in both modes.
    let mut modern = machine(true);
    modern.execute(0x600B).unwrap();
    modern.execute(0x6102).unwrap();
    modern.execute(0x8016).unwrap();
    assert_eq!(modern.reg(0), 0x05, "modern shifts V[X] itself");
    assert_eq!(modern.reg(0xF), 1, "old LSB of V[X]");

    let mut legacy = machine(false);
    legacy.execute(0x600B).unwrap();
    legacy.execute(0x6102).unwrap();
    legacy.execute(0x8016).unwrap();
    assert_eq!(legacy.reg(0), 0x01, "legacy copies V[Y] first");
    assert_eq!(legacy.reg(0xF), 0, "old LSB of V[Y]");
}

#[test]
fn shift_left_diverges_between_modes() {
    let mut modern = machine(true);
    modern.execute(0x6081).unwrap();
    modern.execute(0x6101).unwrap();
    modern.execute(0x801E).unwrap();
    assert_eq!(modern.reg(0), 0x02);
    assert_eq!(modern.reg(0xF), 1, "old MSB of V[X]");

    let mut legacy = machine(false);
    legacy.execute(0x6081).unwrap();
    legacy.execute(0x6101).unwrap();
    legacy.execute(0x801E).unwrap();
    assert_eq!(legacy.reg(0), 0x02);
    assert_eq!(legacy.reg(0xF), 0, "old MSB of V[Y]");
}

#[test]
fn modern_shift_ignores_vy() {
    // Whatever V[Y] holds, the modern result is the same.
    for vy in [0x00u16, 0x01, 0x7F, 0xFF] {
        let mut c = machine(true);
        c.execute(0x600B).unwrap();
        c.execute(0x6100 | vy).unwrap();
        c.execute(0x8016).unwrap();
        assert_eq!(c.reg(0), 0x05);
        assert_eq!(c.reg(0xF), 1);
    }
}

#[test]
fn skip_instructions_move_pc() {
    let mut c = machine(true);
    c.execute(0x6005).unwrap();
    let pc = c.pc();
    c.execute(0x3005).unwrap();
    assert_eq!(c.pc(), pc + 2, "3XNN skips on equal");
    c.execute(0x3006).unwrap();
    assert_eq!(c.pc(), pc + 2, "3XNN does not skip on unequal");
    c.execute(0x4006).unwrap();
    assert_eq!(c.pc(), pc + 4, "4XNN skips on unequal");
    c.execute(0x6105).unwrap();
    c.execute(0x5010).unwrap();
    assert_eq!(c.pc(), pc + 6, "5XY0 skips on equal registers");
    c.execute(0x9010).unwrap();
    assert_eq!(c.pc(), pc + 6, "9XY0 does not skip on equal registers");
    c.execute(0x6106).unwrap();
    c.execute(0x9010).unwrap();
    assert_eq!(c.pc(), pc + 8, "9XY0 skips on unequal registers");
}

#[test]
fn unknown_patterns_are_ignored() {
    let mut c = machine(true);
    let pc = c.pc();
    assert_eq!(c.execute(0x0123), Ok(ExecutionEffect::NoEffect));
    assert_eq!(c.execute(0x5121), Ok(ExecutionEffect::NoEffect));
    assert_eq!(c.execute(0x8018), Ok(ExecutionEffect::NoEffect));
    assert_eq!(c.execute(0xE0FF), Ok(ExecutionEffect::NoEffect));
    assert_eq!(c.execute(0xF0FF), Ok(ExecutionEffect::NoEffect));
    assert_eq!(c.pc(), pc);
    assert_eq!(c.reg(0), 0);
}

#[test]
fn jump_with_offset_quirk() {
    let mut modern = machine(true);
    modern.execute(0x6001).unwrap();
    modern.execute(0x6204).unwrap();
    modern.execute(0xB208).unwrap();
    assert_eq!(modern.pc(), 0x208 + 4, "modern adds V[X] with X from the opcode");

    let mut legacy = machine(false);
    legacy.execute(0x6001).unwrap();
    legacy.execute(0x6204).unwrap();
    legacy.execute(0xB208).unwrap();
    assert_eq!(legacy.pc(), 0x208 + 1, "legacy adds V[0]");
}

#[test]
fn random_respects_mask() {
    let mut c = machine(true);
    c.execute(0x6055).unwrap();
    c.execute(0xC000).unwrap();
    assert_eq!(c.reg(0), 0, "mask 0x00 forces zero");
    for _ in 0..32 {
        c.execute(0xC00F).unwrap();
        assert!(c.reg(0) <= 0x0F, "mask 0x0F keeps only the low nibble");
    }
}

#[test]
fn index_register_instructions() {
    let mut c = machine(true);
    c.execute(0xA123).unwrap();
    assert_eq!(c.index_reg(), 0x123);
    c.execute(0x6005).unwrap();
    c.execute(0xF01E).unwrap();
    assert_eq!(c.index_reg(), 0x128);
    assert_eq!(c.reg(0xF), 0, "no 16-bit overflow");
}

#[test]
fn font_character_address() {
    let mut c = machine(true);
    c.execute(0x600A).unwrap();
    c.execute(0xF029).unwrap();
    assert_eq!(c.index_reg(), 50, "glyph n sits at 5 * n");
}

#[test]
fn bcd_store_and_reload() {
    let mut c = machine(true);
    c.execute(0x60EA).unwrap(); // 234
    c.execute(0xA300).unwrap();
    assert_eq!(c.execute(0xF033), Ok(ExecutionEffect::NoEffect));
    assert_eq!(c.execute(0xF265), Ok(ExecutionEffect::NoEffect));
    assert_eq!(c.reg(0), 2);
    assert_eq!(c.reg(1), 3);
    assert_eq!(c.reg(2), 4);
}

#[test]
fn store_load_registers_and_index_quirk() {
    let mut modern = machine(true);
    modern.execute(0x6001).unwrap();
    modern.execute(0x6102).unwrap();
    modern.execute(0x6203).unwrap();
    modern.execute(0xA300).unwrap();
    modern.execute(0xF255).unwrap();
    assert_eq!(modern.index_reg(), 0x300, "modern leaves I unchanged");
    modern.execute(0x6000).unwrap();
    modern.execute(0x6100).unwrap();
    modern.execute(0x6200).unwrap();
    modern.execute(0xF265).unwrap();
    assert_eq!((modern.reg(0), modern.reg(1), modern.reg(2)), (1, 2, 3));
    assert_eq!(modern.index_reg(), 0x300);

    let mut legacy = machine(false);
    legacy.execute(0x6001).unwrap();
    legacy.execute(0x6102).unwrap();
    legacy.execute(0x6203).unwrap();
    legacy.execute(0xA300).unwrap();
    legacy.execute(0xF255).unwrap();
    assert_eq!(legacy.index_reg(), 0x303, "legacy advances I past the block");
    legacy.execute(0xA300).unwrap();
    legacy.execute(0xF265).unwrap();
    assert_eq!((legacy.reg(0), legacy.reg(1), legacy.reg(2)), (1, 2, 3));
    assert_eq!(legacy.index_reg(), 0x303);
}

#[test]
fn stack_underflow_is_reported() {
    let mut c = machine(true);
    assert_eq!(c.execute(0x00EE), Err(Fault::StackUnderflow));
    assert_eq!(c.pc(), 0x200, "state unchanged on fault");
}

#[test]
fn address_overrun_is_reported() {
    let mut c = machine(true);
    c.execute(0xAFFF).unwrap();
    assert_eq!(c.execute(0xF033), Err(Fault::AddressOverrun));
    assert_eq!(c.execute(0xD012), Err(Fault::AddressOverrun));
    assert_eq!(c.execute(0xD011), Ok(ExecutionEffect::DisplayUpdate), "one row at 0xFFF still fits");
    assert_eq!(c.execute(0xF155), Err(Fault::AddressOverrun));
    assert_eq!(c.execute(0xF165), Err(Fault::AddressOverrun));
}

#[test]
fn key_skip_instructions() {
    let mut c = machine(true);
    c.execute(0x6007).unwrap();
    let pc = c.pc();
    c.execute(0xE09E).unwrap();
    assert_eq!(c.pc(), pc, "key 7 not pressed: no skip");
    c.execute(0xE0A1).unwrap();
    assert_eq!(c.pc(), pc + 2, "key 7 not pressed: EXA1 skips");
    c.key_down(7);
    assert!(c.key_state(7));
    c.execute(0xE09E).unwrap();
    assert_eq!(c.pc(), pc + 4, "key 7 pressed: EX9E skips");
    c.key_up(7);
    assert!(!c.key_state(7));
    c.execute(0xE09E).unwrap();
    assert_eq!(c.pc(), pc + 4, "released again: no skip");
}
