use vstd::prelude::*;

use crate::font::font_seq;

verus! {

/// Every way a `load` or `tick` can fail. Each is a recoverable result, never
/// a panic: the host decides whether to stop, report or reset.
#[derive(Clone, Copy, PartialEq, Eq, Structural, Debug)]
pub enum Chip8Error {
    /// A fetch or a memory-indexed instruction addressed a byte outside
    /// memory, or a key-test instruction named a key outside the keypad.
    OutOfBounds,
    /// A subroutine call was made with the return stack already full.
    StackOverflow,
    /// A subroutine return was made with the return stack empty.
    StackUnderflow,
    /// The fetched word matches no instruction pattern.
    UnknownOpcode,
    /// A program image does not fit between the start address and memory end.
    LoadTooLarge,
}

/// The mathematical model of the whole machine: what every contract of the
/// library speaks about.
#[verifier::ext_equal]
pub ghost struct EmuView {
    /// Program counter: address of the next instruction word.
    pub pc: u16,
    /// Flat memory, 4096 bytes; the glyph table sits in the first 80.
    pub ram: Seq<u8>,
    /// Monochrome bitmap, 64 x 32 cells, row-major: cell (x, y) is at x + 64 * y.
    pub screen: Seq<bool>,
    /// The sixteen 8-bit general-purpose registers; register 15 doubles as
    /// the carry / borrow / collision flag.
    pub v: Seq<u8>,
    /// The 16-bit index register used by the memory-indexed instructions.
    pub i: u16,
    /// Return addresses of the subroutine calls now in progress, oldest first.
    pub stack: Seq<u16>,
    /// The input latch: one slot per key of the 16-key pad.
    pub keys: Seq<bool>,
    /// Delay timer, decremented only by the external timer tick.
    pub dt: u8,
    /// Sound timer, decremented only by the external timer tick.
    pub st: u8,
}

impl EmuView {
    /// Well-formedness: the fixed sizes of the machine's arrays, and the
    /// bound of the return stack.
    pub open spec fn wf(self) -> bool {
        &&& self.ram.len() == 4096
        &&& self.screen.len() == 2048
        &&& self.v.len() == 16
        &&& self.keys.len() == 16
        &&& self.stack.len() <= 16
    }
}

/// The machine as it stands right after creation or reset: everything zeroed,
/// the glyph table in low memory, and the program counter at the start address.
pub open spec fn initial_state() -> EmuView {
    EmuView {
        pc: 0x200,
        ram: Seq::new(4096, |j: int| if j < 80 { font_seq()[j] } else { 0u8 }),
        screen: Seq::new(2048, |c: int| false),
        v: Seq::new(16, |j: int| 0u8),
        i: 0,
        stack: Seq::empty(),
        keys: Seq::new(16, |j: int| false),
        dt: 0,
        st: 0,
    }
}

/// 8-bit addition with wraparound.
pub open spec fn add_wrap8(a: u8, b: u8) -> u8 {
    ((a + b) % 256) as u8
}

/// 8-bit subtraction with wraparound.
pub open spec fn sub_wrap8(a: u8, b: u8) -> u8 {
    ((a - b + 256) % 256) as u8
}

/// The same state with the program counter moved past one instruction word,
/// as the skip instructions do.
pub open spec fn skip_instr(s: EmuView) -> EmuView {
    EmuView { pc: (s.pc + 2) as u16, ..s }
}

/// The same state with one register replaced.
pub open spec fn with_reg(s: EmuView, x: int, val: u8) -> EmuView {
    EmuView { v: s.v.update(x, val), ..s }
}

/// Whether sprite-row byte `b` has its pixel set in column `col`
/// (column 0 is the leftmost pixel, bit 7).
pub open spec fn sprite_bit(b: u8, col: int) -> bool
    recommends
        0 <= col < 8,
{
    b & (0x80u8 >> (col as u8)) != 0
}

/// The flat screen index that sprite pixel (row, col) lands on when the
/// sprite origin is (xr, yr): coordinates wrap toroidally at the edges.
pub open spec fn cell_index(xr: int, yr: int, row: int, col: int) -> int {
    (xr + col) % 64 + 64 * ((yr + row) % 32)
}

/// Whether screen cell `c` is toggled by one of the sprite pixels already
/// processed when the draw has handled every row before `row_lim` whole and
/// the first `col_lim` columns of row `row_lim` itself.
pub open spec fn hits_prefix(
    ram: Seq<u8>,
    i: int,
    xr: int,
    yr: int,
    row_lim: int,
    col_lim: int,
    c: int,
) -> bool {
    exists|r: int, cl: int|
        0 <= r && 0 <= cl < 8 && (r < row_lim || (r == row_lim && cl < col_lim))
            && #[trigger] sprite_bit(ram[i + r], cl) && c == cell_index(xr, yr, r, cl)
}

/// Whether screen cell `c` is toggled by the draw of the `n`-row sprite at
/// memory address `i` with origin (xr, yr).
pub open spec fn sprite_hits(ram: Seq<u8>, i: int, n: int, xr: int, yr: int, c: int) -> bool {
    hits_prefix(ram, i, xr, yr, n, 0, c)
}

/// Whether one of the sprite pixels already processed (in the same prefix
/// sense as `hits_prefix`) lands on a cell that was lit before the draw began.
pub open spec fn collision_prefix(
    screen: Seq<bool>,
    ram: Seq<u8>,
    i: int,
    xr: int,
    yr: int,
    row_lim: int,
    col_lim: int,
) -> bool {
    exists|r: int, cl: int|
        0 <= r && 0 <= cl < 8 && (r < row_lim || (r == row_lim && cl < col_lim))
            && #[trigger] sprite_bit(ram[i + r], cl) && screen[cell_index(xr, yr, r, cl)]
}

/// Whether the draw of the `n`-row sprite at address `i`, origin (xr, yr),
/// touches a cell that was already lit: the collision flag of the draw.
pub open spec fn sprite_collides(
    screen: Seq<bool>,
    ram: Seq<u8>,
    i: int,
    n: int,
    xr: int,
    yr: int,
) -> bool {
    collision_prefix(screen, ram, i, xr, yr, n, 0)
}

/// The lowest-indexed pressed key at or above slot `k`, if any.
pub open spec fn first_key_from(keys: Seq<bool>, k: int) -> Option<u8>
    decreases 16 - k,
{
    if k < 0 || k >= 16 {
        None
    } else if keys[k] {
        Some(k as u8)
    } else {
        first_key_from(keys, k + 1)
    }
}

/// The lowest-indexed pressed key, if any: what the wait-for-key
/// instruction reports.
pub open spec fn first_key(keys: Seq<bool>) -> Option<u8> {
    first_key_from(keys, 0)
}

/// One decode-and-execute step on a state whose program counter has already
/// been moved past the fetched word `op`. `rb` is the byte that the random
/// generator produced; only the random-mask instruction reads it. `Err`
/// leaves no trace: the caller keeps the old state.
pub open spec fn spec_exec(s: EmuView, op: u16, rb: u8) -> Result<EmuView, Chip8Error> {
    let d1 = op / 0x1000;
    let d4 = op % 16;
    let x = ((op / 0x100) % 16) as int;
    let y = ((op / 16) % 16) as int;
    let n = (op % 16) as int;
    let nn = (op % 256) as u8;
    let low = op % 256;
    let nnn = (op % 0x1000) as u16;
    if d1 == 0 {
        if op == 0x0000 {
            Ok(s)
        } else if op == 0x00E0 {
            Ok(EmuView { screen: Seq::new(2048, |c: int| false), ..s })
        } else if op == 0x00EE {
            if s.stack.len() == 0 {
                Err(Chip8Error::StackUnderflow)
            } else {
                Ok(EmuView { pc: s.stack.last(), stack: s.stack.drop_last(), ..s })
            }
        } else {
            Err(Chip8Error::UnknownOpcode)
        }
    } else if d1 == 1 {
        Ok(EmuView { pc: nnn, ..s })
    } else if d1 == 2 {
        if s.stack.len() >= 16 {
            Err(Chip8Error::StackOverflow)
        } else {
            Ok(EmuView { pc: nnn, stack: s.stack.push(s.pc), ..s })
        }
    } else if d1 == 3 {
        Ok(if s.v[x] == nn { skip_instr(s) } else { s })
    } else if d1 == 4 {
        Ok(if s.v[x] != nn { skip_instr(s) } else { s })
    } else if d1 == 5 {
        if d4 == 0 {
            Ok(if s.v[x] == s.v[y] { skip_instr(s) } else { s })
        } else {
            Err(Chip8Error::UnknownOpcode)
        }
    } else if d1 == 6 {
        Ok(with_reg(s, x, nn))
    } else if d1 == 7 {
        Ok(with_reg(s, x, add_wrap8(s.v[x], nn)))
    } else if d1 == 8 {
        if d4 == 0 {
            Ok(with_reg(s, x, s.v[y]))
        } else if d4 == 1 {
            Ok(with_reg(s, x, s.v[x] | s.v[y]))
        } else if d4 == 2 {
            Ok(with_reg(s, x, s.v[x] & s.v[y]))
        } else if d4 == 3 {
            Ok(with_reg(s, x, s.v[x] ^ s.v[y]))
        } else if d4 == 4 {
            let carry: u8 = if s.v[x] + s.v[y] > 255 { 1 } else { 0 };
            Ok(EmuView { v: s.v.update(x, add_wrap8(s.v[x], s.v[y])).update(15, carry), ..s })
        } else if d4 == 5 {
            let no_borrow: u8 = if s.v[x] >= s.v[y] { 1 } else { 0 };
            Ok(EmuView { v: s.v.update(x, sub_wrap8(s.v[x], s.v[y])).update(15, no_borrow), ..s })
        } else if d4 == 6 {
            let lsb: u8 = (s.v[x] % 2) as u8;
            Ok(EmuView { v: s.v.update(x, (s.v[x] / 2) as u8).update(15, lsb), ..s })
        } else if d4 == 7 {
            let no_borrow: u8 = if s.v[y] >= s.v[x] { 1 } else { 0 };
            Ok(EmuView { v: s.v.update(x, sub_wrap8(s.v[y], s.v[x])).update(15, no_borrow), ..s })
        } else if d4 == 0xE {
            let msb: u8 = (s.v[x] / 128) as u8;
            Ok(EmuView { v: s.v.update(x, ((s.v[x] * 2) % 256) as u8).update(15, msb), ..s })
        } else {
            Err(Chip8Error::UnknownOpcode)
        }
    } else if d1 == 9 {
        if d4 == 0 {
            Ok(if s.v[x] != s.v[y] { skip_instr(s) } else { s })
        } else {
            Err(Chip8Error::UnknownOpcode)
        }
    } else if d1 == 0xA {
        Ok(EmuView { i: nnn, ..s })
    } else if d1 == 0xB {
        Ok(EmuView { pc: (s.v[0] + nnn) as u16, ..s })
    } else if d1 == 0xC {
        Ok(with_reg(s, x, rb & nn))
    } else if d1 == 0xD {
        let xr = s.v[x] % 64;
        let yr = s.v[y] % 32;
        if n > 0 && s.i + n > 4096 {
            Err(Chip8Error::OutOfBounds)
        } else {
            Ok(EmuView {
                screen: Seq::new(2048, |c: int|
                    (s.screen[c] != sprite_hits(s.ram, s.i as int, n, xr as int, yr as int, c))
                ),
                v: s.v.update(15,
                    if sprite_collides(s.screen, s.ram, s.i as int, n, xr as int, yr as int) {
                        1u8
                    } else {
                        0u8
                    }),
                ..s
            })
        }
    } else if d1 == 0xE {
        if low == 0x9E {
            if s.v[x] >= 16 {
                Err(Chip8Error::OutOfBounds)
            } else {
                Ok(if s.keys[s.v[x] as int] { skip_instr(s) } else { s })
            }
        } else if low == 0xA1 {
            if s.v[x] >= 16 {
                Err(Chip8Error::OutOfBounds)
            } else {
                Ok(if !s.keys[s.v[x] as int] { skip_instr(s) } else { s })
            }
        } else {
            Err(Chip8Error::UnknownOpcode)
        }
    } else {
        if low == 0x07 {
            Ok(with_reg(s, x, s.dt))
        } else if low == 0x0A {
            Ok(match first_key(s.keys) {
                Some(k) => with_reg(s, x, k),
                None => EmuView { pc: (s.pc - 2) as u16, ..s },
            })
        } else if low == 0x15 {
            Ok(EmuView { dt: s.v[x], ..s })
        } else if low == 0x18 {
            Ok(EmuView { st: s.v[x], ..s })
        } else if low == 0x1E {
            Ok(EmuView { i: ((s.i + s.v[x]) % 0x10000) as u16, ..s })
        } else if low == 0x29 {
            Ok(EmuView { i: (s.v[x] * 5) as u16, ..s })
        } else if low == 0x33 {
            if s.i + 2 >= 4096 {
                Err(Chip8Error::OutOfBounds)
            } else {
                Ok(EmuView {
                    ram: s.ram
                        .update(s.i as int, (s.v[x] / 100) as u8)
                        .update(s.i as int + 1, ((s.v[x] / 10) % 10) as u8)
                        .update(s.i as int + 2, (s.v[x] % 10) as u8),
                    ..s
                })
            }
        } else if low == 0x55 {
            if s.i + x >= 4096 {
                Err(Chip8Error::OutOfBounds)
            } else {
                Ok(EmuView {
                    ram: Seq::new(4096, |j: int|
                        if s.i <= j <= s.i + x { s.v[j - s.i] } else { s.ram[j] }
                    ),
                    ..s
                })
            }
        } else if low == 0x65 {
            if s.i + x >= 4096 {
                Err(Chip8Error::OutOfBounds)
            } else {
                Ok(EmuView {
                    v: Seq::new(16, |j: int| if j <= x { s.ram[s.i + j] } else { s.v[j] }),
                    ..s
                })
            }
        } else {
            Err(Chip8Error::UnknownOpcode)
        }
    }
}

/// Distinct sprite pixels of one draw land on distinct screen cells: the
/// rows are fewer than the screen height and the columns fewer than its
/// width, so the toroidal wrap cannot fold two of them together.
pub proof fn lemma_cell_index_injective(xr: int, yr: int, r1: int, c1: int, r2: int, c2: int)
    requires
        0 <= xr < 64,
        0 <= yr < 32,
        0 <= r1 < 32,
        0 <= r2 < 32,
        0 <= c1 < 8,
        0 <= c2 < 8,
        !(r1 == r2 && c1 == c2),
    ensures
        cell_index(xr, yr, r1, c1) != cell_index(xr, yr, r2, c2),
{
    assert((xr + c1) % 64 == if xr + c1 < 64 { xr + c1 } else { xr + c1 - 64 });
    assert((xr + c2) % 64 == if xr + c2 < 64 { xr + c2 } else { xr + c2 - 64 });
    assert((yr + r1) % 32 == if yr + r1 < 32 { yr + r1 } else { yr + r1 - 32 });
    assert((yr + r2) % 32 == if yr + r2 < 32 { yr + r2 } else { yr + r2 - 32 });
}

/// No sprite pixel processed strictly before (row, col) lands on the cell
/// that pixel (row, col) itself lands on.
pub proof fn lemma_cell_untouched(ram: Seq<u8>, i: int, xr: int, yr: int, row: int, col: int)
    requires
        0 <= xr < 64,
        0 <= yr < 32,
        0 <= row < 32,
        0 <= col < 8,
    ensures
        !hits_prefix(ram, i, xr, yr, row, col, cell_index(xr, yr, row, col)),
{
    let t = cell_index(xr, yr, row, col);
    if hits_prefix(ram, i, xr, yr, row, col, t) {
        let (r, cl) = choose|r: int, cl: int|
            0 <= r && 0 <= cl < 8 && (r < row || (r == row && cl < col))
                && #[trigger] sprite_bit(ram[i + r], cl) && t == cell_index(xr, yr, r, cl);
        if r < 32 {
            lemma_cell_index_injective(xr, yr, r, cl, row, col);
        } else {
            assert((yr + r) % 32 >= 0 && (yr + r) % 32 < 32);
            assert((yr + row) % 32 == if yr + row < 32 { yr + row } else { yr + row - 32 });
            assert(false);
        }
    }
}

/// Extending a draw prefix by one column adds exactly the pixel (row, col):
/// the set of toggled cells grows by its target cell when its sprite bit is
/// set, and the collision account by whether that target was lit.
pub proof fn lemma_draw_step(
    screen0: Seq<bool>,
    ram: Seq<u8>,
    i: int,
    xr: int,
    yr: int,
    row: int,
    col: int,
)
    requires
        0 <= row,
        0 <= col < 8,
    ensures
        forall|c: int|
            hits_prefix(ram, i, xr, yr, row, col + 1, c) <==> (hits_prefix(
                ram,
                i,
                xr,
                yr,
                row,
                col,
                c,
            ) || (sprite_bit(ram[i + row], col) && c == cell_index(xr, yr, row, col))),
        collision_prefix(screen0, ram, i, xr, yr, row, col + 1) <==> (collision_prefix(
            screen0,
            ram,
            i,
            xr,
            yr,
            row,
            col,
        ) || (sprite_bit(ram[i + row], col) && screen0[cell_index(xr, yr, row, col)])),
{
    assert forall|c: int|
        hits_prefix(ram, i, xr, yr, row, col + 1, c) implies (hits_prefix(ram, i, xr, yr, row, col, c)
        || (sprite_bit(ram[i + row], col) && c == cell_index(xr, yr, row, col))) by {
        let (r, cl) = choose|r: int, cl: int|
            0 <= r && 0 <= cl < 8 && (r < row || (r == row && cl < col + 1))
                && #[trigger] sprite_bit(ram[i + r], cl) && c == cell_index(xr, yr, r, cl);
        if !(r == row && cl == col) {
            assert(r < row || (r == row && cl < col));
            assert(hits_prefix(ram, i, xr, yr, row, col, c));
        }
    };
    assert forall|c: int|
        (hits_prefix(ram, i, xr, yr, row, col, c) || (sprite_bit(ram[i + row], col) && c
            == cell_index(xr, yr, row, col))) implies hits_prefix(
        ram,
        i,
        xr,
        yr,
        row,
        col + 1,
        c,
    ) by {
        if hits_prefix(ram, i, xr, yr, row, col, c) {
            let (r, cl) = choose|r: int, cl: int|
                0 <= r && 0 <= cl < 8 && (r < row || (r == row && cl < col))
                    && #[trigger] sprite_bit(ram[i + r], cl) && c == cell_index(xr, yr, r, cl);
            assert(r < row || (r == row && cl < col + 1));
            assert(hits_prefix(ram, i, xr, yr, row, col + 1, c));
        } else {
            assert(sprite_bit(ram[i + row], col) && c == cell_index(xr, yr, row, col));
            assert(hits_prefix(ram, i, xr, yr, row, col + 1, c));
        }
    };
    if collision_prefix(screen0, ram, i, xr, yr, row, col + 1) {
        let (r, cl) = choose|r: int, cl: int|
            0 <= r && 0 <= cl < 8 && (r < row || (r == row && cl < col + 1))
                && #[trigger] sprite_bit(ram[i + r], cl)
                && screen0[cell_index(xr, yr, r, cl)];
        if !(r == row && cl == col) {
            assert(collision_prefix(screen0, ram, i, xr, yr, row, col));
        }
    }
    if collision_prefix(screen0, ram, i, xr, yr, row, col) {
        let (r, cl) = choose|r: int, cl: int|
            0 <= r && 0 <= cl < 8 && (r < row || (r == row && cl < col))
                && #[trigger] sprite_bit(ram[i + r], cl)
                && screen0[cell_index(xr, yr, r, cl)];
        assert(collision_prefix(screen0, ram, i, xr, yr, row, col + 1));
    } else if sprite_bit(ram[i + row], col) && screen0[cell_index(xr, yr, row, col)] {
        assert(collision_prefix(screen0, ram, i, xr, yr, row, col + 1));
    }
}

/// A draw prefix that has finished all eight columns of a row is the same
/// prefix as the start of the next row.
pub proof fn lemma_draw_row_roll(
    screen0: Seq<bool>,
    ram: Seq<u8>,
    i: int,
    xr: int,
    yr: int,
    row: int,
)
    requires
        0 <= row,
    ensures
        forall|c: int|
            hits_prefix(ram, i, xr, yr, row, 8, c) <==> hits_prefix(ram, i, xr, yr, row + 1, 0, c),
        collision_prefix(screen0, ram, i, xr, yr, row, 8) <==> collision_prefix(
            screen0,
            ram,
            i,
            xr,
            yr,
            row + 1,
            0,
        ),
{
    assert forall|c: int|
        hits_prefix(ram, i, xr, yr, row, 8, c) implies hits_prefix(ram, i, xr, yr, row + 1, 0, c) by {
        let (r, cl) = choose|r: int, cl: int|
            0 <= r && 0 <= cl < 8 && (r < row || (r == row && cl < 8))
                && #[trigger] sprite_bit(ram[i + r], cl) && c == cell_index(xr, yr, r, cl);
        assert(r < row + 1);
        assert(hits_prefix(ram, i, xr, yr, row + 1, 0, c));
    };
    assert forall|c: int|
        hits_prefix(ram, i, xr, yr, row + 1, 0, c) implies hits_prefix(ram, i, xr, yr, row, 8, c) by {
        let (r, cl) = choose|r: int, cl: int|
            0 <= r && 0 <= cl < 8 && (r < row + 1 || (r == row + 1 && cl < 0))
                && #[trigger] sprite_bit(ram[i + r], cl) && c == cell_index(xr, yr, r, cl);
        assert(r < row || (r == row && cl < 8));
        assert(hits_prefix(ram, i, xr, yr, row, 8, c));
    };
    if collision_prefix(screen0, ram, i, xr, yr, row, 8) {
        let (r, cl) = choose|r: int, cl: int|
            0 <= r && 0 <= cl < 8 && (r < row || (r == row && cl < 8))
                && #[trigger] sprite_bit(ram[i + r], cl)
                && screen0[cell_index(xr, yr, r, cl)];
        assert(collision_prefix(screen0, ram, i, xr, yr, row + 1, 0));
    }
    if collision_prefix(screen0, ram, i, xr, yr, row + 1, 0) {
        let (r, cl) = choose|r: int, cl: int|
            0 <= r && 0 <= cl < 8 && (r < row + 1 || (r == row + 1 && cl < 0))
                && #[trigger] sprite_bit(ram[i + r], cl)
                && screen0[cell_index(xr, yr, r, cl)];
        assert(collision_prefix(screen0, ram, i, xr, yr, row, 8));
    }
}

/// An empty draw prefix toggles nothing and collides with nothing.
pub proof fn lemma_draw_empty(screen0: Seq<bool>, ram: Seq<u8>, i: int, xr: int, yr: int)
    ensures
        forall|c: int| !hits_prefix(ram, i, xr, yr, 0, 0, c),
        !collision_prefix(screen0, ram, i, xr, yr, 0, 0),
{
    assert forall|c: int| !hits_prefix(ram, i, xr, yr, 0, 0, c) by {
        if hits_prefix(ram, i, xr, yr, 0, 0, c) {
            let (r, cl) = choose|r: int, cl: int|
                0 <= r && 0 <= cl < 8 && (r < 0 || (r == 0 && cl < 0))
                    && #[trigger] sprite_bit(ram[i + r], cl) && c == cell_index(xr, yr, r, cl);
            assert(false);
        }
    };
    if collision_prefix(screen0, ram, i, xr, yr, 0, 0) {
        let (r, cl) = choose|r: int, cl: int|
            0 <= r && 0 <= cl < 8 && (r < 0 || (r == 0 && cl < 0))
                && #[trigger] sprite_bit(ram[i + r], cl)
                && screen0[cell_index(xr, yr, r, cl)];
        assert(false);
    }
}

/// The instruction word at the program counter: two bytes, big-endian.
pub open spec fn spec_fetch_word(s: EmuView) -> u16 {
    (s.ram[s.pc as int] * 256 + s.ram[s.pc as int + 1]) as u16
}

/// One whole machine cycle: fetch the word at the program counter, move the
/// counter past it, then decode and execute. `rb` is the byte the random
/// generator produced for this cycle.
pub open spec fn spec_tick(s: EmuView, rb: u8) -> Result<EmuView, Chip8Error> {
    if s.pc + 1 >= 4096 {
        Err(Chip8Error::OutOfBounds)
    } else {
        spec_exec(EmuView { pc: (s.pc + 2) as u16, ..s }, spec_fetch_word(s), rb)
    }
}

} // verus!
