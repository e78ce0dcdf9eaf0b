use vstd::prelude::*;
use vstd::pervasive::VecAdditionalExecFns;

use crate::font::font_bytes;
use crate::model::{
    cell_index, collision_prefix, first_key, first_key_from, hits_prefix, initial_state,
    lemma_cell_untouched, lemma_draw_empty, lemma_draw_row_roll, lemma_draw_step, spec_exec,
    spec_fetch_word, spec_tick, sprite_hits, Chip8Error, EmuView,
};

verus! {

/// The virtual machine: registers, memory, display, stack, input latch and
/// timers, owned exclusively by the host. Its abstract value is an
/// [`EmuView`]; every operation's contract is stated over that view.
pub struct Emu {
    pc: u16,
    ram: Vec<u8>,
    screen: Vec<bool>,
    v_regs: Vec<u8>,
    i_reg: u16,
    stack: Vec<u16>,
    keys: Vec<bool>,
    dt: u8,
    st: u8,
}

impl View for Emu {
    type V = EmuView;

    closed spec fn view(&self) -> EmuView {
        EmuView {
            pc: self.pc,
            ram: self.ram@,
            screen: self.screen@,
            v: self.v_regs@,
            i: self.i_reg,
            stack: self.stack@,
            keys: self.keys@,
            dt: self.dt,
            st: self.st,
        }
    }
}

/// A vector of `n` copies of `val`.
fn filled_u8(n: usize, val: u8) -> (v: Vec<u8>)
    ensures
        v@ == Seq::new(n as nat, |j: int| val),
{
    let mut v: Vec<u8> = Vec::new();
    let mut k: usize = 0;
    while k < n
        invariant
            k <= n,
            v@.len() == k,
            forall|j: int| 0 <= j < k ==> v@[j] == val,
        decreases n - k,
    {
        v.push(val);
        k += 1;
    }
    proof {
        assert(v@ =~= Seq::new(n as nat, |j: int| val));
    }
    v
}

/// A vector of `n` copies of `val`.
fn filled_bool(n: usize, val: bool) -> (v: Vec<bool>)
    ensures
        v@ == Seq::new(n as nat, |j: int| val),
{
    let mut v: Vec<bool> = Vec::new();
    let mut k: usize = 0;
    while k < n
        invariant
            k <= n,
            v@.len() == k,
            forall|j: int| 0 <= j < k ==> v@[j] == val,
        decreases n - k,
    {
        v.push(val);
        k += 1;
    }
    proof {
        assert(v@ =~= Seq::new(n as nat, |j: int| val));
    }
    v
}

/// Relies on rand::random: one byte drawn from the thread-local generator.
/// Nothing is assumed of the value.
#[verifier::external_body]
fn random_byte() -> u8 {
    rand::random()
}

impl Emu {
    /// A fresh machine: all state zeroed, the glyph table in low memory, and
    /// the program counter at the program start address.
    pub fn new() -> (e: Emu)
        ensures
            e@ == initial_state(),
            e@.wf(),
    {
        let mut ram = filled_u8(4096, 0);
        let font = font_bytes();
        let mut k: usize = 0;
        while k < 80
            invariant
                k <= 80,
                ram@.len() == 4096,
                font@ == crate::font::font_seq(),
                forall|j: int| 0 <= j < k ==> ram@[j] == font@[j],
                forall|j: int| k <= j < 4096 ==> ram@[j] == 0u8,
            decreases 80 - k,
        {
            ram.set(k, font[k]);
            k += 1;
        }
        let e = Emu {
            pc: 0x200,
            ram,
            screen: filled_bool(2048, false),
            v_regs: filled_u8(16, 0),
            i_reg: 0,
            stack: Vec::new(),
            keys: filled_bool(16, false),
            dt: 0,
            st: 0,
        };
        proof {
            assert(e@.ram =~= initial_state().ram);
            assert(e@.screen =~= initial_state().screen);
            assert(e@.v =~= initial_state().v);
            assert(e@.keys =~= initial_state().keys);
            assert(e@.stack =~= initial_state().stack);
            assert(e@ =~= initial_state());
        }
        e
    }

    /// Restore the machine to the same state a fresh one has, in place.
    pub fn reset(&mut self)
        ensures
            final(self)@ == initial_state(),
            final(self)@.wf(),
    {
        *self = Emu::new();
    }

    /// The display buffer, read-only: cell (x, y) is at index x + 64 * y,
    /// true meaning lit.
    pub fn get_display(&self) -> (r: &Vec<bool>)
        ensures
            r@ == self@.screen,
    {
        &self.screen
    }

    /// Record that key `idx` of the 16-key pad went down or up.
    pub fn keypress(&mut self, idx: usize, pressed: bool)
        requires
            old(self)@.wf(),
            idx < 16,
        ensures
            final(self)@ == (EmuView { keys: old(self)@.keys.update(idx as int, pressed), ..old(self)@ }),
            final(self)@.wf(),
    {
        self.keys.set(idx, pressed);
    }

    /// Copy a program image into memory at the start address. Fails with
    /// `LoadTooLarge`, leaving the machine unchanged, exactly when the image
    /// would run past the end of memory.
    pub fn load(&mut self, data: &Vec<u8>) -> (r: Result<(), Chip8Error>)
        requires
            old(self)@.wf(),
        ensures
            final(self)@.wf(),
            match r {
                Ok(()) => {
                    &&& data@.len() <= 4096 - 0x200
                    &&& final(self)@ == (EmuView {
                        ram: Seq::new(4096, |j: int|
                            if 0x200 <= j < 0x200 + data@.len() {
                                data@[j - 0x200]
                            } else {
                                old(self)@.ram[j]
                            }),
                        ..old(self)@
                    })
                },
                Err(e) => {
                    &&& e == Chip8Error::LoadTooLarge
                    &&& data@.len() > 4096 - 0x200
                    &&& final(self)@ == old(self)@
                },
            },
    {
        if data.len() > 4096 - 0x200 {
            return Err(Chip8Error::LoadTooLarge);
        }
        let ghost pre = self@;
        let mut k: usize = 0;
        while k < data.len()
            invariant
                pre.wf(),
                k <= data@.len(),
                data@.len() <= 4096 - 0x200,
                self@ == (EmuView {
                    ram: Seq::new(4096, |j: int|
                        if 0x200 <= j < 0x200 + k {
                            data@[j - 0x200]
                        } else {
                            pre.ram[j]
                        }),
                    ..pre
                }),
            decreases data@.len() - k,
        {
            self.ram.set(0x200 + k, data[k]);
            k += 1;
            proof {
                assert(self@.ram =~= Seq::new(4096, |j: int|
                    if 0x200 <= j < 0x200 + k {
                        data@[j - 0x200]
                    } else {
                        pre.ram[j]
                    }));
                assert(self@ =~= (EmuView {
                    ram: Seq::new(4096, |j: int|
                        if 0x200 <= j < 0x200 + k {
                            data@[j - 0x200]
                        } else {
                            pre.ram[j]
                        }),
                    ..pre
                }));
            }
        }
        Ok(())
    }

    /// Decrement each timer that is above zero. The result reports whether
    /// the sound timer just ran out on this call — the moment the tone
    /// should stop.
    pub fn tick_timers(&mut self) -> (tone_ended: bool)
        ensures
            final(self)@ == (EmuView {
                dt: if old(self)@.dt > 0 { (old(self)@.dt - 1) as u8 } else { 0 },
                st: if old(self)@.st > 0 { (old(self)@.st - 1) as u8 } else { 0 },
                ..old(self)@
            }),
            tone_ended == (old(self)@.st == 1),
    {
        if self.dt > 0 {
            self.dt = self.dt - 1;
        }
        let tone_ended = self.st == 1;
        if self.st > 0 {
            self.st = self.st - 1;
        }
        proof {
            assert(self@ =~= (EmuView {
                dt: if old(self)@.dt > 0 { (old(self)@.dt - 1) as u8 } else { 0 },
                st: if old(self)@.st > 0 { (old(self)@.st - 1) as u8 } else { 0 },
                ..old(self)@
            }));
        }
        tone_ended
    }

    /// Push a return address, or fail with `StackOverflow` when the stack
    /// already holds its sixteen entries.
    fn push(&mut self, val: u16) -> (r: Result<(), Chip8Error>)
        requires
            old(self)@.wf(),
        ensures
            final(self)@.wf(),
            match r {
                Ok(()) => {
                    &&& old(self)@.stack.len() < 16
                    &&& final(self)@ == (EmuView { stack: old(self)@.stack.push(val), ..old(self)@ })
                },
                Err(e) => {
                    &&& e == Chip8Error::StackOverflow
                    &&& old(self)@.stack.len() == 16
                    &&& final(self)@ == old(self)@
                },
            },
    {
        if self.stack.len() >= 16 {
            return Err(Chip8Error::StackOverflow);
        }
        self.stack.push(val);
        Ok(())
    }

    /// The lowest-indexed pressed key of the pad, if any is pressed: what
    /// the wait-for-key instruction reports.
    fn find_first_key(&self) -> (r: Option<u8>)
        requires
            self@.wf(),
        ensures
            r == first_key(self@.keys),
    {
        let mut j: usize = 0;
        while j < 16
            invariant
                self@.wf(),
                j <= 16,
                first_key(self@.keys) == first_key_from(self@.keys, j as int),
            decreases 16 - j,
        {
            if self.keys[j] {
                proof {
                    assert(first_key_from(self@.keys, j as int) == Some(j as u8));
                }
                return Some(j as u8);
            }
            j += 1;
        }
        None
    }

    /// Read the instruction word at the program counter, big-endian, and
    /// move the counter past it. Fails with `OutOfBounds`, leaving the
    /// machine unchanged, exactly when the word does not fit below the end
    /// of memory.
    fn fetch(&mut self) -> (r: Result<u16, Chip8Error>)
        requires
            old(self)@.wf(),
        ensures
            final(self)@.wf(),
            match r {
                Ok(op) => {
                    &&& old(self)@.pc + 1 < 4096
                    &&& op == spec_fetch_word(old(self)@)
                    &&& final(self)@ == (EmuView { pc: (old(self)@.pc + 2) as u16, ..old(self)@ })
                },
                Err(e) => {
                    &&& e == Chip8Error::OutOfBounds
                    &&& old(self)@.pc + 1 >= 4096
                    &&& final(self)@ == old(self)@
                },
            },
    {
        if self.pc >= 4095 {
            return Err(Chip8Error::OutOfBounds);
        }
        let hi = self.ram[self.pc as usize];
        let lo = self.ram[self.pc as usize + 1];
        let op = hi as u16 * 256 + lo as u16;
        self.pc = self.pc + 2;
        Ok(op)
    }

    /// Decode the word `op` and perform its state transition. The program
    /// counter has already been moved past the word. On `Err` the machine is
    /// left exactly as it was.
    fn execute(&mut self, op: u16) -> (r: Result<(), Chip8Error>)
        requires
            old(self)@.wf(),
            2 <= old(self)@.pc <= 4096,
        ensures
            final(self)@.wf(),
            match r {
                Ok(()) => exists|rb: u8|
                    spec_exec(old(self)@, op, rb) == Ok::<EmuView, Chip8Error>(final(self)@),
                Err(e) => {
                    &&& final(self)@ == old(self)@
                    &&& forall|rb: u8|
                        spec_exec(old(self)@, op, rb) == Err::<EmuView, Chip8Error>(e)
                },
            },
    {
        let ghost s0 = self@;
        let d1 = op / 0x1000;
        let d2 = (op / 0x100) % 16;
        let d3 = (op / 16) % 16;
        let d4 = op % 16;
        let x = d2 as usize;
        let y = d3 as usize;
        let nn = (op % 256) as u8;
        let low = op % 256;
        let nnn = op % 0x1000;
        if d1 == 0 {
            if op == 0x0000 {
                Ok(())
            } else if op == 0x00E0 {
                self.screen = filled_bool(2048, false);
                proof {
                    assert(self@.screen =~= Seq::new(2048, |c: int| false));
                    assert(spec_exec(s0, op, 0u8) == Ok::<EmuView, Chip8Error>(self@));
                }
                Ok(())
            } else if op == 0x00EE {
                match self.pop() {
                    Ok(ret) => {
                        self.pc = ret;
                        Ok(())
                    },
                    Err(e) => Err(e),
                }
            } else {
                Err(Chip8Error::UnknownOpcode)
            }
        } else if d1 == 1 {
            self.pc = nnn;
            Ok(())
        } else if d1 == 2 {
            match self.push(self.pc) {
                Ok(()) => {
                    self.pc = nnn;
                    Ok(())
                },
                Err(e) => Err(e),
            }
        } else if d1 == 3 {
            if self.v_regs[x] == nn {
                self.pc = self.pc + 2;
            }
            Ok(())
        } else if d1 == 4 {
            if self.v_regs[x] != nn {
                self.pc = self.pc + 2;
            }
            Ok(())
        } else if d1 == 5 {
            if d4 == 0 {
                if self.v_regs[x] == self.v_regs[y] {
                    self.pc = self.pc + 2;
                }
                Ok(())
            } else {
                Err(Chip8Error::UnknownOpcode)
            }
        } else if d1 == 6 {
            self.v_regs.set(x, nn);
            Ok(())
        } else if d1 == 7 {
            let sum = self.v_regs[x] as u16 + nn as u16;
            self.v_regs.set(x, (sum % 256) as u8);
            Ok(())
        } else if d1 == 8 {
            if d4 == 0 {
                let vy = self.v_regs[y];
                self.v_regs.set(x, vy);
                Ok(())
            } else if d4 == 1 {
                let val = self.v_regs[x] | self.v_regs[y];
                self.v_regs.set(x, val);
                Ok(())
            } else if d4 == 2 {
                let val = self.v_regs[x] & self.v_regs[y];
                self.v_regs.set(x, val);
                Ok(())
            } else if d4 == 3 {
                let val = self.v_regs[x] ^ self.v_regs[y];
                self.v_regs.set(x, val);
                Ok(())
            } else if d4 == 4 {
                let sum = self.v_regs[x] as u16 + self.v_regs[y] as u16;
                let carry: u8 = if sum > 255 { 1 } else { 0 };
                self.v_regs.set(x, (sum % 256) as u8);
                self.v_regs.set(15, carry);
                Ok(())
            } else if d4 == 5 {
                let vx = self.v_regs[x];
                let vy = self.v_regs[y];
                let no_borrow: u8 = if vx >= vy { 1 } else { 0 };
                let diff: u8 = if vx >= vy { vx - vy } else { ((vx as u16 + 256) - vy as u16) as u8 };
                self.v_regs.set(x, diff);
                self.v_regs.set(15, no_borrow);
                Ok(())
            } else if d4 == 6 {
                let vx = self.v_regs[x];
                self.v_regs.set(x, vx / 2);
                self.v_regs.set(15, vx % 2);
                Ok(())
            } else if d4 == 7 {
                let vx = self.v_regs[x];
                let vy = self.v_regs[y];
                let no_borrow: u8 = if vy >= vx { 1 } else { 0 };
                let diff: u8 = if vy >= vx { vy - vx } else { ((vy as u16 + 256) - vx as u16) as u8 };
                self.v_regs.set(x, diff);
                self.v_regs.set(15, no_borrow);
                Ok(())
            } else if d4 == 0xE {
                let vx = self.v_regs[x];
                let dbl = vx as u16 * 2;
                self.v_regs.set(x, (dbl % 256) as u8);
                self.v_regs.set(15, vx / 128);
                Ok(())
            } else {
                Err(Chip8Error::UnknownOpcode)
            }
        } else if d1 == 9 {
            if d4 == 0 {
                if self.v_regs[x] != self.v_regs[y] {
                    self.pc = self.pc + 2;
                }
                Ok(())
            } else {
                Err(Chip8Error::UnknownOpcode)
            }
        } else if d1 == 0xA {
            self.i_reg = nnn;
            Ok(())
        } else if d1 == 0xB {
            self.pc = self.v_regs[0] as u16 + nnn;
            Ok(())
        } else if d1 == 0xC {
            let rb = random_byte();
            self.v_regs.set(x, rb & nn);
            proof {
                assert(spec_exec(s0, op, rb) == Ok::<EmuView, Chip8Error>(self@));
            }
            Ok(())
        } else if d1 == 0xD {
            self.draw(op)
        } else if d1 == 0xE {
            if low == 0x9E {
                let vx = self.v_regs[x];
                if vx >= 16 {
                    Err(Chip8Error::OutOfBounds)
                } else {
                    if self.keys[vx as usize] {
                        self.pc = self.pc + 2;
                    }
                    Ok(())
                }
            } else if low == 0xA1 {
                let vx = self.v_regs[x];
                if vx >= 16 {
                    Err(Chip8Error::OutOfBounds)
                } else {
                    if !self.keys[vx as usize] {
                        self.pc = self.pc + 2;
                    }
                    Ok(())
                }
            } else {
                Err(Chip8Error::UnknownOpcode)
            }
        } else {
            if low == 0x07 {
                let dt = self.dt;
                self.v_regs.set(x, dt);
                Ok(())
            } else if low == 0x0A {
                match self.find_first_key() {
                    Some(k) => {
                        self.v_regs.set(x, k);
                    },
                    None => {
                        self.pc = self.pc - 2;
                    },
                }
                Ok(())
            } else if low == 0x15 {
                self.dt = self.v_regs[x];
                Ok(())
            } else if low == 0x18 {
                self.st = self.v_regs[x];
                Ok(())
            } else if low == 0x1E {
                let sum = self.i_reg as u32 + self.v_regs[x] as u32;
                self.i_reg = (sum % 0x10000) as u16;
                Ok(())
            } else if low == 0x29 {
                self.i_reg = self.v_regs[x] as u16 * 5;
                Ok(())
            } else if low == 0x33 {
                if self.i_reg >= 4094 {
                    Err(Chip8Error::OutOfBounds)
                } else {
                    let vx = self.v_regs[x];
                    let i = self.i_reg as usize;
                    self.ram.set(i, vx / 100);
                    self.ram.set(i + 1, (vx / 10) % 10);
                    self.ram.set(i + 2, vx % 10);
                    Ok(())
                }
            } else if low == 0x55 {
                if self.i_reg as usize + x >= 4096 {
                    Err(Chip8Error::OutOfBounds)
                } else {
                    let i = self.i_reg as usize;
                    let mut idx: usize = 0;
                    while idx <= x
                        invariant
                            s0.wf(),
                            op / 0x1000 == 0xF,
                            op % 256 == 0x55,
                            x as int == (op / 0x100) % 16,
                            x < 16,
                            idx <= x + 1,
                            i + x < 4096,
                            i == s0.i,
                            self@ == (EmuView {
                                ram: Seq::new(4096, |j: int|
                                    if i <= j < i + idx { s0.v[j - i] } else { s0.ram[j] }),
                                ..s0
                            }),
                        decreases x + 1 - idx,
                    {
                        let val = self.v_regs[idx];
                        self.ram.set(i + idx, val);
                        idx += 1;
                        proof {
                            assert(self@.ram =~= Seq::new(4096, |j: int|
                                if i <= j < i + idx { s0.v[j - i] } else { s0.ram[j] }));
                            assert(self@ =~= (EmuView {
                                ram: Seq::new(4096, |j: int|
                                    if i <= j < i + idx { s0.v[j - i] } else { s0.ram[j] }),
                                ..s0
                            }));
                        }
                    }
                    proof {
                        assert(self@.ram =~= Seq::new(4096, |j: int|
                            if s0.i <= j <= s0.i + x { s0.v[j - s0.i] } else { s0.ram[j] }));
                        assert(spec_exec(s0, op, 0u8) == Ok::<EmuView, Chip8Error>(self@));
                    }
                    Ok(())
                }
            } else if low == 0x65 {
                if self.i_reg as usize + x >= 4096 {
                    Err(Chip8Error::OutOfBounds)
                } else {
                    let i = self.i_reg as usize;
                    let mut idx: usize = 0;
                    while idx <= x
                        invariant
                            s0.wf(),
                            op / 0x1000 == 0xF,
                            op % 256 == 0x65,
                            x as int == (op / 0x100) % 16,
                            x < 16,
                            idx <= x + 1,
                            i + x < 4096,
                            i == s0.i,
                            self@ == (EmuView {
                                v: Seq::new(16, |j: int|
                                    if j < idx { s0.ram[i + j] } else { s0.v[j] }),
                                ..s0
                            }),
                        decreases x + 1 - idx,
                    {
                        let val = self.ram[i + idx];
                        self.v_regs.set(idx, val);
                        idx += 1;
                        proof {
                            assert(self@.v =~= Seq::new(16, |j: int|
                                if j < idx { s0.ram[i + j] } else { s0.v[j] }));
                            assert(self@ =~= (EmuView {
                                v: Seq::new(16, |j: int|
                                    if j < idx { s0.ram[i + j] } else { s0.v[j] }),
                                ..s0
                            }));
                        }
                    }
                    proof {
                        assert(self@.v =~= Seq::new(16, |j: int|
                            if j <= x { s0.ram[s0.i + j] } else { s0.v[j] }));
                        assert(spec_exec(s0, op, 0u8) == Ok::<EmuView, Chip8Error>(self@));
                    }
                    Ok(())
                }
            } else {
                Err(Chip8Error::UnknownOpcode)
            }
        }
    }

    /// The draw instruction: XOR an `n`-row sprite read from memory at the
    /// index register onto the screen at the origin the two named registers
    /// give, wrapping toroidally, and set register 15 to 1 exactly when a
    /// lit cell was toggled off.
    fn draw(&mut self, op: u16) -> (r: Result<(), Chip8Error>)
        requires
            old(self)@.wf(),
            op / 0x1000 == 0xD,
        ensures
            final(self)@.wf(),
            match r {
                Ok(()) => exists|rb: u8|
                    spec_exec(old(self)@, op, rb) == Ok::<EmuView, Chip8Error>(final(self)@),
                Err(e) => {
                    &&& final(self)@ == old(self)@
                    &&& forall|rb: u8|
                        spec_exec(old(self)@, op, rb) == Err::<EmuView, Chip8Error>(e)
                },
            },
    {
        let ghost s0 = self@;
        let x = ((op / 0x100) % 16) as usize;
        let y = ((op / 16) % 16) as usize;
        let n = (op % 16) as usize;
        let x_orig = self.v_regs[x] % 64;
        let y_orig = self.v_regs[y] % 32;
        if n > 0 && self.i_reg as usize + n > 4096 {
            return Err(Chip8Error::OutOfBounds);
        }
        let i = self.i_reg as usize;
        let ghost ii = i as int;
        let ghost xr = x_orig as int;
        let ghost yr = y_orig as int;
        let mut flipped: bool = false;
        let mut row: usize = 0;
        proof {
            lemma_draw_empty(s0.screen, s0.ram, ii, xr, yr);
        }
        while row < n
            invariant
                s0.wf(),
                row <= n,
                n < 16,
                0 <= xr < 64,
                0 <= yr < 32,
                n > 0 ==> ii + n <= 4096,
                ii == s0.i,
                i as int == ii,
                xr == x_orig as int,
                yr == y_orig as int,
                op / 0x1000 == 0xD,
                n as int == op % 16,
                xr == s0.v[((op / 0x100) % 16) as int] % 64,
                yr == s0.v[((op / 16) % 16) as int] % 32,
                self@.ram == s0.ram,
                self@.v == s0.v,
                self@.pc == s0.pc,
                self@.i == s0.i,
                self@.stack == s0.stack,
                self@.keys == s0.keys,
                self@.dt == s0.dt,
                self@.st == s0.st,
                self@.screen.len() == 2048,
                forall|c: int|
                    0 <= c < 2048 ==> self@.screen[c] == (s0.screen[c] != hits_prefix(
                        s0.ram,
                        ii,
                        xr,
                        yr,
                        row as int,
                        0,
                        c,
                    )),
                flipped == collision_prefix(s0.screen, s0.ram, ii, xr, yr, row as int, 0),
            decreases n - row,
        {
            let pixels = self.ram[i + row];
            let mut col: usize = 0;
            while col < 8
                invariant
                    s0.wf(),
                    row < n,
                    n < 16,
                    col <= 8,
                    0 <= xr < 64,
                    0 <= yr < 32,
                    ii + n <= 4096,
                    ii == s0.i,
                    i as int == ii,
                    xr == x_orig as int,
                    yr == y_orig as int,
                    pixels == s0.ram[ii + row],
                    self@.ram == s0.ram,
                    self@.v == s0.v,
                    self@.pc == s0.pc,
                    self@.i == s0.i,
                    self@.stack == s0.stack,
                    self@.keys == s0.keys,
                    self@.dt == s0.dt,
                    self@.st == s0.st,
                    self@.screen.len() == 2048,
                    forall|c: int|
                        0 <= c < 2048 ==> self@.screen[c] == (s0.screen[c] != hits_prefix(
                            s0.ram,
                            ii,
                            xr,
                            yr,
                            row as int,
                            col as int,
                            c,
                        )),
                    flipped == collision_prefix(s0.screen, s0.ram, ii, xr, yr, row as int, col as int),
                decreases 8 - col,
            {
                proof {
                    lemma_draw_step(s0.screen, s0.ram, ii, xr, yr, row as int, col as int);
                    lemma_cell_untouched(s0.ram, ii, xr, yr, row as int, col as int);
                }
                if pixels & (0x80u8 >> (col as u8)) != 0 {
                    let tx = (x_orig as usize + col) % 64;
                    let ty = (y_orig as usize + row) % 32;
                    let idx = tx + 64 * ty;
                    proof {
                        assert(idx as int == cell_index(xr, yr, row as int, col as int));
                    }
                    let cur = self.screen[idx];
                    flipped = flipped || cur;
                    self.screen.set(idx, !cur);
                }
                col += 1;
            }
            proof {
                lemma_draw_row_roll(s0.screen, s0.ram, ii, xr, yr, row as int);
            }
            row += 1;
        }
        let flag: u8 = if flipped { 1 } else { 0 };
        self.v_regs.set(15, flag);
        proof {
            assert(self@.screen =~= Seq::new(2048, |c: int|
                (s0.screen[c] != sprite_hits(s0.ram, s0.i as int, n as int, xr, yr, c))));
            assert(spec_exec(s0, op, 0u8) == Ok::<EmuView, Chip8Error>(self@));
        }
        Ok(())
    }

    /// Run one whole machine cycle: fetch the word at the program counter,
    /// decode it, and perform its state transition. On `Err` the machine is
    /// left exactly as it was, whichever of the failures occurred.
    pub fn tick(&mut self) -> (r: Result<(), Chip8Error>)
        requires
            old(self)@.wf(),
        ensures
            final(self)@.wf(),
            match r {
                Ok(()) => exists|rb: u8|
                    spec_tick(old(self)@, rb) == Ok::<EmuView, Chip8Error>(final(self)@),
                Err(e) => {
                    &&& final(self)@ == old(self)@
                    &&& forall|rb: u8|
                        spec_tick(old(self)@, rb) == Err::<EmuView, Chip8Error>(e)
                },
            },
    {
        let ghost s0 = self@;
        let saved_pc = self.pc;
        let op = match self.fetch() {
            Ok(op) => op,
            Err(e) => {
                return Err(e);
            },
        };
        let ghost mid = self@;
        match self.execute(op) {
            Ok(()) => {
                proof {
                    let rb = choose|rb: u8|
                        spec_exec(mid, op, rb) == Ok::<EmuView, Chip8Error>(self@);
                    assert(mid == (EmuView { pc: (s0.pc + 2) as u16, ..s0 }));
                    assert(spec_tick(s0, rb) == Ok::<EmuView, Chip8Error>(self@));
                }
                Ok(())
            },
            Err(e) => {
                self.pc = saved_pc;
                proof {
                    assert(self@ =~= s0);
                    assert(forall|rb: u8|
                        spec_tick(s0, rb) == Err::<EmuView, Chip8Error>(e));
                }
                Err(e)
            },
        }
    }

    /// Pop the newest return address, or fail with `StackUnderflow` when the
    /// stack is empty.
    fn pop(&mut self) -> (r: Result<u16, Chip8Error>)
        requires
            old(self)@.wf(),
        ensures
            final(self)@.wf(),
            match r {
                Ok(val) => {
                    &&& old(self)@.stack.len() > 0
                    &&& val == old(self)@.stack.last()
                    &&& final(self)@ == (EmuView { stack: old(self)@.stack.drop_last(), ..old(self)@ })
                },
                Err(e) => {
                    &&& e == Chip8Error::StackUnderflow
                    &&& old(self)@.stack.len() == 0
                    &&& final(self)@ == old(self)@
                },
            },
    {
        match self.stack.pop() {
            Some(val) => Ok(val),
            None => Err(Chip8Error::StackUnderflow),
        }
    }
}

} // verus!
