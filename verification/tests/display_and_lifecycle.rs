use chip8_core::{Chip8Error, Emu, SCREEN_HEIGHT, SCREEN_WIDTH};

/// Build a machine with the given raw bytes loaded at the program start
/// address.
fn machine_with_bytes(bytes: &[u8]) -> Emu {
    let mut emu = Emu::new();
    let image: Vec<u8> = bytes.to_vec();
    assert_eq!(emu.load(&image), Ok(()));
    emu
}

/// Run `n` cycles, each of which must succeed.
fn run_cycles(emu: &mut Emu, n: usize) {
    for k in 0..n {
        assert_eq!(emu.tick(), Ok(()), "cycle {} failed", k);
    }
}

fn cell(emu: &Emu, x: usize, y: usize) -> bool {
    emu.get_display()[x + SCREEN_WIDTH * y]
}

#[test]
fn fresh_machine_has_blank_display() {
    let emu = Emu::new();
    let display = emu.get_display();
    assert_eq!(display.len(), SCREEN_WIDTH * SCREEN_HEIGHT);
    assert!(display.iter().all(|lit| !lit));
}

#[test]
fn draw_renders_sprite_rows() {
    // Draw the single row 0xF0 at (0, 0): columns 0..3 lit, the rest dark.
    let mut emu = machine_with_bytes(&[
        0x60, 0x00, // v0 = 0
        0x61, 0x00, // v1 = 0
        0xA2, 0x08, // i = 0x208
        0xD0, 0x11, // draw 1 row at (v0, v1)
        0xF0, // sprite data
    ]);
    run_cycles(&mut emu, 4);
    for x in 0..8 {
        assert_eq!(cell(&emu, x, 0), x < 4, "column {}", x);
    }
    assert!(!cell(&emu, 0, 1));
}

#[test]
fn draw_wraps_toroidally_at_right_edge() {
    // Draw the row 0xFF at x = 63: one pixel in the last column, the other
    // seven wrapped back to columns 0..6.
    let mut emu = machine_with_bytes(&[
        0x60, 0x3F, // v0 = 63
        0x61, 0x00, // v1 = 0
        0xA2, 0x08, // i = 0x208
        0xD0, 0x11, // draw 1 row at (63, 0)
        0xFF, // sprite data
    ]);
    run_cycles(&mut emu, 4);
    assert!(cell(&emu, 63, 0));
    for x in 0..7 {
        assert!(cell(&emu, x, 0), "wrapped column {}", x);
    }
    for x in 7..63 {
        assert!(!cell(&emu, x, 0), "column {} should be dark", x);
    }
}

#[test]
fn draw_wraps_toroidally_at_bottom_edge() {
    // Two rows drawn at y = 31: the second row wraps to y = 0.
    let mut emu = machine_with_bytes(&[
        0x60, 0x00, // v0 = 0
        0x61, 0x1F, // v1 = 31
        0xA2, 0x08, // i = 0x208
        0xD0, 0x12, // draw 2 rows at (0, 31)
        0x80, 0x80, // sprite data: one pixel per row
    ]);
    run_cycles(&mut emu, 4);
    assert!(cell(&emu, 0, 31));
    assert!(cell(&emu, 0, 0));
    assert!(!cell(&emu, 0, 1));
}

#[test]
fn draw_twice_erases_and_reports_collision() {
    // The first draw lights pixels with flag 0; the second draw of the same
    // sprite at the same place toggles them off with flag 1. The flag checks
    // jump over invalid words, so every cycle must succeed.
    let mut emu = machine_with_bytes(&[
        0x60, 0x00, // 0x200: v0 = 0
        0x61, 0x00, // 0x202: v1 = 0
        0xA2, 0x14, // 0x204: i = 0x214
        0xD0, 0x11, // 0x206: draw
        0x3F, 0x00, // 0x208: skip if flag == 0
        0xFF, 0xFF, // 0x20A
        0xD0, 0x11, // 0x20C: draw again
        0x3F, 0x01, // 0x20E: skip if flag == 1
        0xFF, 0xFF, // 0x210
        0x00, 0x00, // 0x212: nop
        0xF0, // 0x214: sprite data
    ]);
    run_cycles(&mut emu, 4);
    assert!(cell(&emu, 0, 0), "first draw must light the corner");
    run_cycles(&mut emu, 4);
    assert!(emu.get_display().iter().all(|lit| !lit), "second draw must erase");
}

#[test]
fn clear_screen_blanks_display() {
    let mut emu = machine_with_bytes(&[
        0x60, 0x00, 0x61, 0x00, 0xA2, 0x0A, 0xD0, 0x11, // draw
        0x00, 0xE0, // clear
        0xF0, // sprite data
    ]);
    run_cycles(&mut emu, 4);
    assert!(cell(&emu, 0, 0));
    run_cycles(&mut emu, 1);
    assert!(emu.get_display().iter().all(|lit| !lit));
}

#[test]
fn glyph_table_renders_digit_one() {
    // Point the index register at the glyph for 1 and draw its five rows.
    let mut emu = machine_with_bytes(&[
        0x60, 0x01, // v0 = 1
        0xF0, 0x29, // i = glyph of v0
        0x61, 0x00, // v1 = 0
        0x62, 0x00, // v2 = 0
        0xD1, 0x25, // draw 5 rows at (v1, v2)
    ]);
    run_cycles(&mut emu, 5);
    // Glyph rows: 0x20, 0x60, 0x20, 0x20, 0x70.
    let rows: [u8; 5] = [0x20, 0x60, 0x20, 0x20, 0x70];
    for (y, row) in rows.iter().enumerate() {
        for x in 0..8 {
            let expected = row & (0x80 >> x) != 0;
            assert_eq!(cell(&emu, x, y), expected, "glyph cell ({}, {})", x, y);
        }
    }
}

#[test]
fn draw_past_memory_end_is_out_of_bounds() {
    let mut emu = machine_with_bytes(&[
        0xAF, 0xFF, // i = 0xFFF
        0xD0, 0x12, // draw 2 rows: would read 0xFFF and 0x1000
    ]);
    run_cycles(&mut emu, 1);
    assert_eq!(emu.tick(), Err(Chip8Error::OutOfBounds));
}

#[test]
fn zero_row_draw_touches_nothing() {
    let mut emu = machine_with_bytes(&[
        0xAF, 0xFF, // i = 0xFFF: harmless, a zero-row draw reads no memory
        0xD0, 0x10, // draw 0 rows
    ]);
    run_cycles(&mut emu, 2);
    assert!(emu.get_display().iter().all(|lit| !lit));
}

#[test]
fn load_too_large_is_rejected_and_harmless() {
    let mut emu = Emu::new();
    let image: Vec<u8> = vec![0xAB; 4096 - 0x200 + 1];
    assert_eq!(emu.load(&image), Err(Chip8Error::LoadTooLarge));
    // The failed load wrote nothing: the first cycle still sees a zero word.
    assert_eq!(emu.tick(), Ok(()));
}

#[test]
fn load_fills_exactly_to_memory_end() {
    let mut emu = Emu::new();
    let image: Vec<u8> = vec![0x00; 4096 - 0x200];
    assert_eq!(emu.load(&image), Ok(()));
    assert_eq!(emu.tick(), Ok(()));
}

#[test]
fn reset_restores_fresh_state() {
    let mut emu = machine_with_bytes(&[
        0x60, 0x00, 0x61, 0x00, 0xA2, 0x08, 0xD0, 0x11, 0xF0,
    ]);
    run_cycles(&mut emu, 4);
    assert!(cell(&emu, 0, 0));
    emu.reset();
    assert!(emu.get_display().iter().all(|lit| !lit));
    // The loaded program is gone: memory reads as zero words again.
    assert_eq!(emu.tick(), Ok(()));
    // The glyph table is back in place: the glyph of 0 renders.
    let program: Vec<u8> = vec![0x60, 0x00, 0xF0, 0x29, 0xD0, 0x05];
    emu.reset();
    assert_eq!(emu.load(&program), Ok(()));
    run_cycles(&mut emu, 3);
    assert!(cell(&emu, 0, 0), "glyph of 0 starts with a lit row");
}

#[test]
fn key_wait_blocks_until_press_and_takes_lowest() {
    let mut emu = machine_with_bytes(&[
        0xF0, 0x0A, // wait for a key into v0
        0x30, 0x05, // skip if v0 == 5
        0xFF, 0xFF, 0x00, 0x00,
    ]);
    // With no key pressed the machine stays on the wait instruction.
    run_cycles(&mut emu, 3);
    emu.keypress(9, true);
    emu.keypress(5, true);
    // The lowest pressed key index lands in v0 and execution moves on.
    run_cycles(&mut emu, 3);
}

#[test]
fn key_skip_instructions_follow_the_latch() {
    let mut emu = machine_with_bytes(&[
        0x60, 0x02, // 0x200: v0 = 2
        0xE0, 0x9E, // 0x202: skip if key 2 pressed
        0xFF, 0xFF, // 0x204: jumped over while the key is down
        0xE0, 0xA1, // 0x206: skip if key 2 not pressed: key is down, no skip
        0x00, 0x00, // 0x208: nop
        0xE0, 0xA1, // 0x20A: by now the key is up again: skip
        0xFF, 0xFF, // 0x20C
        0x00, 0x00, // 0x20E: nop
    ]);
    emu.keypress(2, true);
    run_cycles(&mut emu, 4); // set, skip, no-skip, nop
    emu.keypress(2, false);
    run_cycles(&mut emu, 2); // skip, nop
}

#[test]
fn timers_decrement_only_on_timer_ticks() {
    let mut emu = machine_with_bytes(&[
        0x60, 0x05, // v0 = 5
        0xF0, 0x15, // dt = 5
        0x00, 0x00, // nop
        0x00, 0x00, // nop
        0xF1, 0x07, // v1 = dt
        0x31, 0x05, // skip if v1 == 5: instruction cycles left it alone
        0xFF, 0xFF,
        0xF2, 0x07, // v2 = dt (after two timer ticks below)
        0x32, 0x03, // skip if v2 == 3
        0xFF, 0xFF,
        0x00, 0x00,
    ]);
    run_cycles(&mut emu, 6);
    assert!(!emu.tick_timers());
    assert!(!emu.tick_timers());
    run_cycles(&mut emu, 3);
}

#[test]
fn sound_timer_signals_when_it_runs_out() {
    let mut emu = machine_with_bytes(&[
        0x60, 0x02, // v0 = 2
        0xF0, 0x18, // st = 2
    ]);
    run_cycles(&mut emu, 2);
    assert!(!emu.tick_timers()); // 2 -> 1
    assert!(emu.tick_timers()); // 1 -> 0: the tone ends now
    assert!(!emu.tick_timers()); // stays 0
    assert!(!emu.tick_timers());
}

#[test]
fn timers_never_go_below_zero() {
    let mut emu = Emu::new();
    for _ in 0..300 {
        assert!(!emu.tick_timers());
    }
    // Both timers are still zero: a delay-timer read gives v1 = 0.
    let program: Vec<u8> = vec![0xF1, 0x07, 0x31, 0x00, 0xFF, 0xFF, 0x00, 0x00];
    assert_eq!(emu.load(&program), Ok(()));
    run_cycles(&mut emu, 3);
}
