use chip8_core::{Chip8Error, Emu};

/// Build a machine with `words` assembled big-endian and loaded at the
/// program start address.
fn machine_with(words: &[u16]) -> Emu {
    let mut bytes: Vec<u8> = Vec::new();
    for w in words {
        bytes.push((w >> 8) as u8);
        bytes.push((w & 0xFF) as u8);
    }
    let mut emu = Emu::new();
    assert_eq!(emu.load(&bytes), Ok(()));
    emu
}

/// Run `n` cycles, each of which must succeed.
fn run_ok(emu: &mut Emu, n: usize) {
    for k in 0..n {
        assert_eq!(emu.tick(), Ok(()), "cycle {} failed", k);
    }
}

#[test]
fn add_immediate_wraps_to_zero() {
    // v0 = 0xFF; v0 += 0x01; the skip is taken only if v0 wrapped to 0x00,
    // jumping over an invalid word that would otherwise fail the run.
    let mut emu = machine_with(&[0x60FF, 0x7001, 0x3000, 0xFFFF, 0x0000]);
    run_ok(&mut emu, 4);
}

#[test]
fn add_registers_wraps_and_sets_carry() {
    // v0 = 0xFF, v1 = 0x01; v0 += v1 wraps to 0x00 with carry flag 1.
    let mut emu = machine_with(&[
        0x60FF, 0x6101, 0x8014, 0x3000, 0xFFFF, 0x3F01, 0xFFFF, 0x0000,
    ]);
    run_ok(&mut emu, 6);
}

#[test]
fn add_registers_no_carry() {
    // 0x03 + 0x04 = 0x07, carry flag 0.
    let mut emu = machine_with(&[
        0x6003, 0x6104, 0x8014, 0x3007, 0xFFFF, 0x3F00, 0xFFFF, 0x0000,
    ]);
    run_ok(&mut emu, 6);
}

#[test]
fn subtract_with_borrow() {
    // v0 = 0x01 - 0x02 wraps to 0xFF and the flag reports the borrow with 0.
    let mut emu = machine_with(&[
        0x6001, 0x6102, 0x8015, 0x30FF, 0xFFFF, 0x3F00, 0xFFFF, 0x0000,
    ]);
    run_ok(&mut emu, 6);
}

#[test]
fn subtract_without_borrow() {
    // v0 = 0x05 - 0x02 = 0x03 and the flag reports no borrow with 1.
    let mut emu = machine_with(&[
        0x6005, 0x6102, 0x8015, 0x3003, 0xFFFF, 0x3F01, 0xFFFF, 0x0000,
    ]);
    run_ok(&mut emu, 6);
}

#[test]
fn reverse_subtract_uses_flag_convention() {
    // v0 = v1 - v0 = 0x07 - 0x02 = 0x05, no borrow so flag is 1.
    let mut emu = machine_with(&[
        0x6002, 0x6107, 0x8017, 0x3005, 0xFFFF, 0x3F01, 0xFFFF, 0x0000,
    ]);
    run_ok(&mut emu, 6);
}

#[test]
fn shift_right_captures_low_bit() {
    // v0 = 0x03 >> 1 = 0x01 and the dropped low bit 1 lands in the flag.
    let mut emu = machine_with(&[
        0x6003, 0x8006, 0x3001, 0xFFFF, 0x3F01, 0xFFFF, 0x0000,
    ]);
    run_ok(&mut emu, 5);
}

#[test]
fn shift_left_captures_high_bit() {
    // v0 = 0x81 << 1 wraps to 0x02 and the dropped high bit 1 lands in the flag.
    let mut emu = machine_with(&[
        0x6081, 0x800E, 0x3002, 0xFFFF, 0x3F01, 0xFFFF, 0x0000,
    ]);
    run_ok(&mut emu, 5);
}

#[test]
fn bitwise_or_and_xor() {
    // v0 = 0x0C | 0x0A = 0x0E, then v1 = 0x0C & 0x0A = 0x08,
    // then v2 = 0x0C ^ 0x0A = 0x06.
    let mut emu = machine_with(&[
        0x600C, 0x610A, 0x8011, 0x300E, 0xFFFF, // or
        0x620C, 0x630A, 0x8232, 0x3208, 0xFFFF, // and
        0x640C, 0x650A, 0x8453, 0x3406, 0xFFFF, // xor
        0x0000,
    ]);
    run_ok(&mut emu, 13);
}

#[test]
fn bcd_decomposition() {
    // v0 = 234 is decomposed at the index register into 2, 3, 4, which are
    // read back into v0..v2 and checked digit by digit.
    let mut emu = machine_with(&[
        0x60EA, 0xA300, 0xF033, 0xF265, 0x3002, 0xFFFF, 0x3103, 0xFFFF, 0x3204, 0xFFFF, 0x0000,
    ]);
    run_ok(&mut emu, 8);
}

#[test]
fn store_and_load_registers_round_trip() {
    // Write v0..v2 = 9, 8, 7 to memory, overwrite the registers, read the
    // three bytes back and check each.
    let mut emu = machine_with(&[
        0x6009, 0x6108, 0x6207, 0xA320, 0xF255, // store v0..v2 at 0x320
        0x6000, 0x6100, 0x6200, // clear them
        0xF265, // load v0..v2 back
        0x3009, 0xFFFF, 0x3108, 0xFFFF, 0x3207, 0xFFFF, 0x0000,
    ]);
    run_ok(&mut emu, 13);
}

#[test]
fn jump_and_jump_with_offset() {
    // 1nnn jumps to 0x208; there v0 = 2 and Bnnn jumps to v0 + 0x20A = 0x20C,
    // skipping both invalid words.
    let mut emu = machine_with(&[
        0x1208, // 0x200: jump 0x208
        0xFFFF, // 0x202
        0xFFFF, // 0x204
        0x0000, // 0x206
        0x6002, // 0x208: v0 = 2
        0xB20A, // 0x20A: jump v0 + 0x20A = 0x20C
        0x0000, // 0x20C: nop
    ]);
    run_ok(&mut emu, 4);
}

#[test]
fn skip_if_not_equal_variants() {
    // 4xnn skips when the register differs; 9xy0 skips when registers differ.
    let mut emu = machine_with(&[
        0x6005, // v0 = 5
        0x4006, // skip: v0 != 6
        0xFFFF,
        0x6107, // v1 = 7
        0x9010, // skip: v0 != v1
        0xFFFF,
        0x5010, // 5xy0 does not skip: v0 != v1
        0x0000,
    ]);
    run_ok(&mut emu, 6);
}

#[test]
fn subroutine_call_and_return() {
    // Call a subroutine that sets v0 = 5 and returns; execution resumes at
    // the instruction after the call, which checks v0.
    let mut emu = machine_with(&[
        0x2208, // 0x200: call 0x208
        0x3005, // 0x202: skip if v0 == 5
        0xFFFF, // 0x204
        0x0000, // 0x206
        0x6005, // 0x208: v0 = 5
        0x00EE, // 0x20A: return
    ]);
    run_ok(&mut emu, 6);
}

#[test]
fn call_depth_sixteen_overflows_on_seventeenth() {
    // A chain of calls, each to the next word: sixteen succeed, the
    // seventeenth must report a stack overflow.
    let mut words: Vec<u16> = Vec::new();
    for k in 0..17u16 {
        words.push(0x2000 | (0x202 + 2 * k));
    }
    let mut emu = machine_with(&words);
    run_ok(&mut emu, 16);
    assert_eq!(emu.tick(), Err(Chip8Error::StackOverflow));
}

#[test]
fn return_on_empty_stack_underflows() {
    let mut emu = machine_with(&[0x00EE]);
    assert_eq!(emu.tick(), Err(Chip8Error::StackUnderflow));
}

#[test]
fn unknown_opcodes_are_reported() {
    let mut emu = machine_with(&[0xFFFF]);
    assert_eq!(emu.tick(), Err(Chip8Error::UnknownOpcode));
    let mut emu2 = machine_with(&[0x5001]);
    assert_eq!(emu2.tick(), Err(Chip8Error::UnknownOpcode));
    let mut emu3 = machine_with(&[0x8008]);
    assert_eq!(emu3.tick(), Err(Chip8Error::UnknownOpcode));
    let mut emu4 = machine_with(&[0x00E1]);
    assert_eq!(emu4.tick(), Err(Chip8Error::UnknownOpcode));
}

#[test]
fn fetch_past_memory_end_is_out_of_bounds() {
    // Jump to the last valid word slot; the following fetch would start at
    // 0x1000 and must fail.
    let mut emu = machine_with(&[0x1FFE]);
    assert_eq!(emu.tick(), Ok(())); // jump to 0xFFE
    assert_eq!(emu.tick(), Ok(())); // zero word there: no-op
    assert_eq!(emu.tick(), Err(Chip8Error::OutOfBounds));
}

#[test]
fn bcd_near_memory_end_is_out_of_bounds() {
    let mut emu = machine_with(&[0xAFFF, 0x60EA, 0xF033]);
    run_ok(&mut emu, 2);
    assert_eq!(emu.tick(), Err(Chip8Error::OutOfBounds));
}

#[test]
fn store_registers_past_memory_end_is_out_of_bounds() {
    let mut emu = machine_with(&[0xAFFF, 0xF155]);
    run_ok(&mut emu, 1);
    assert_eq!(emu.tick(), Err(Chip8Error::OutOfBounds));
}

#[test]
fn key_test_with_bad_register_value_is_out_of_bounds() {
    let mut emu = machine_with(&[0x6020, 0xE09E]);
    run_ok(&mut emu, 1);
    assert_eq!(emu.tick(), Err(Chip8Error::OutOfBounds));
}

#[test]
fn failed_tick_leaves_machine_unchanged() {
    // After an unknown opcode the machine has not moved: ticking again
    // reports the same failure, and the display is untouched.
    let mut emu = machine_with(&[0xFFFF]);
    assert_eq!(emu.tick(), Err(Chip8Error::UnknownOpcode));
    assert_eq!(emu.tick(), Err(Chip8Error::UnknownOpcode));
    assert!(emu.get_display().iter().all(|cell| !cell));
}

#[test]
fn random_mask_zero_gives_zero() {
    // vx = random & 0x00 must always be zero.
    let mut emu = machine_with(&[0xC000, 0x3000, 0xFFFF, 0x0000]);
    run_ok(&mut emu, 3);
}

#[test]
fn index_register_add_and_glyph_offset() {
    // Fx29 points the index register at the 5-byte glyph of the register's
    // value; Fx1E then advances it. v1 = 3 -> i = 15; i += v1 -> 18. Writing
    // the BCD of v0 = 7 at 18 and reading three bytes back gives 0, 0, 7.
    let mut emu = machine_with(&[
        0x6103, // v1 = 3
        0xF129, // i = 15
        0xF11E, // i = 18
        0x6007, // v0 = 7
        0xF033, // bcd of 7 at 18..20
        0xF265, // v0..v2 = memory[18..21]
        0x3000, 0xFFFF, 0x3100, 0xFFFF, 0x3207, 0xFFFF, 0x0000,
    ]);
    run_ok(&mut emu, 9);
}
