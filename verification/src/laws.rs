use vstd::prelude::*;

use crate::model::{
    cell_index, collision_prefix, first_key, first_key_from, hits_prefix, spec_exec,
    spec_fetch_word, spec_tick, sprite_bit, sprite_hits, Chip8Error, EmuView,
};

verus! {

/// Arithmetic wraparound of the add-immediate instruction: for every state
/// and every pair of addend bytes, the target register receives the sum
/// modulo 256, and no other register — in particular not the flag register,
/// unless it is itself the target — is touched.
pub proof fn lemma_add_imm_wraps(s: EmuView, op: u16, rb: u8)
    requires
        s.wf(),
        op / 0x1000 == 7,
    ensures
        ({
            let x = ((op / 0x100) % 16) as int;
            let nn = (op % 256) as u8;
            let r = spec_exec(s, op, rb);
            &&& r is Ok
            &&& r->Ok_0.v[x] == (s.v[x] + nn) % 256
            &&& forall|j: int| 0 <= j < 16 && j != x ==> r->Ok_0.v[j] == s.v[j]
            &&& r->Ok_0.pc == s.pc
        }),
{
}

/// Arithmetic wraparound of the add-register instruction: for every state
/// and every pair of register values, the target register receives the sum
/// modulo 256 and the flag register receives 1 exactly when the sum
/// overflowed a byte.
pub proof fn lemma_add_reg_wraps(s: EmuView, op: u16, rb: u8)
    requires
        s.wf(),
        op / 0x1000 == 8,
        op % 16 == 4,
    ensures
        ({
            let x = ((op / 0x100) % 16) as int;
            let y = ((op / 16) % 16) as int;
            let r = spec_exec(s, op, rb);
            &&& r is Ok
            &&& x != 15 ==> r->Ok_0.v[x] == (s.v[x] + s.v[y]) % 256
            &&& r->Ok_0.v[15] == (if s.v[x] + s.v[y] > 255 { 1u8 } else { 0u8 })
        }),
{
}

/// Subroutine round trip: whenever the stack has room, a call pushes the
/// return address and jumps to the call target, and the matching return
/// restores the program counter to the instruction after the call and the
/// stack to exactly what it was — at any nesting depth. A call with all
/// sixteen slots in use fails with a stack overflow and changes nothing.
pub proof fn lemma_call_return_round_trip(s: EmuView, op: u16, rb1: u8, rb2: u8)
    requires
        s.wf(),
        op / 0x1000 == 2,
    ensures
        s.stack.len() < 16 ==> ({
            let called = spec_exec(s, op, rb1);
            &&& called is Ok
            &&& called->Ok_0.pc == op % 0x1000
            &&& called->Ok_0.stack == s.stack.push(s.pc)
            &&& ({
                let returned = spec_exec(called->Ok_0, 0x00EE, rb2);
                &&& returned is Ok
                &&& returned->Ok_0 == s
            })
        }),
        s.stack.len() == 16 ==> spec_exec(s, op, rb1) == Err::<EmuView, Chip8Error>(
            Chip8Error::StackOverflow,
        ),
{
    if s.stack.len() < 16 {
        let called = spec_exec(s, op, rb1)->Ok_0;
        let returned = spec_exec(called, 0x00EE, rb2)->Ok_0;
        assert(returned.stack =~= s.stack);
        assert(returned =~= s);
    }
}

/// What `first_key_from` finds, when scanning upward from slot `j`: either
/// nothing, and then no slot at or above `j` is pressed, or the lowest
/// pressed slot at or above `j`.
proof fn lemma_first_key_from_props(keys: Seq<bool>, j: int)
    requires
        keys.len() == 16,
        0 <= j <= 16,
    ensures
        first_key_from(keys, j) is None ==> forall|k: int| j <= k < 16 ==> !keys[k],
        first_key_from(keys, j) is Some ==> ({
            let m = first_key_from(keys, j)->Some_0 as int;
            &&& j <= m < 16
            &&& keys[m]
            &&& forall|k: int| j <= k < m ==> !keys[k]
        }),
    decreases 16 - j,
{
    if j < 16 && !keys[j] {
        lemma_first_key_from_props(keys, j + 1);
    }
}

/// Key-wait behaviour: when the fetched instruction is wait-for-key and no
/// key is pressed, one whole cycle leaves the machine exactly as it was, so
/// the same instruction runs again on the next cycle. Once keys are pressed,
/// one cycle advances past the instruction and stores the lowest-indexed
/// pressed key in the named register.
pub proof fn lemma_key_wait(s: EmuView, rb: u8)
    requires
        s.wf(),
        s.pc + 1 < 4096,
        spec_fetch_word(s) / 0x1000 == 0xF,
        spec_fetch_word(s) % 256 == 0x0A,
    ensures
        (forall|k: int| 0 <= k < 16 ==> !s.keys[k]) ==> spec_tick(s, rb) == Ok::<
            EmuView,
            Chip8Error,
        >(s),
        (exists|k: int| 0 <= k < 16 && s.keys[k]) ==> ({
            let x = ((spec_fetch_word(s) / 0x100) % 16) as int;
            let r = spec_tick(s, rb);
            &&& r is Ok
            &&& r->Ok_0.pc == s.pc + 2
            &&& r->Ok_0.v[x] == first_key(s.keys)->Some_0
            &&& s.keys[r->Ok_0.v[x] as int]
            &&& forall|k: int| 0 <= k < r->Ok_0.v[x] as int ==> !s.keys[k]
        }),
{
    lemma_first_key_from_props(s.keys, 0);
    if forall|k: int| 0 <= k < 16 ==> !s.keys[k] {
        if first_key(s.keys) is Some {
            assert(s.keys[first_key(s.keys)->Some_0 as int]);
        }
        assert(spec_tick(s, rb)->Ok_0 =~= s);
    } else {
        let k = choose|k: int| 0 <= k < 16 && s.keys[k];
        if first_key(s.keys) is None {
            assert(!s.keys[k]);
        }
    }
}

/// Timer independence: an instruction cycle that succeeds never changes
/// either timer, unless the fetched instruction is one of the two that set
/// a timer from a register.
pub proof fn lemma_tick_leaves_timers(s: EmuView, rb: u8)
    requires
        s.wf(),
        !(spec_fetch_word(s) / 0x1000 == 0xF && spec_fetch_word(s) % 256 == 0x15),
        !(spec_fetch_word(s) / 0x1000 == 0xF && spec_fetch_word(s) % 256 == 0x18),
    ensures
        spec_tick(s, rb) is Ok ==> spec_tick(s, rb)->Ok_0.dt == s.dt && spec_tick(s, rb)->Ok_0.st
            == s.st,
{
}

/// Timer independence over a whole run: along any chain of successful
/// instruction cycles in which no fetched instruction is one of the two
/// that set a timer, both timers end exactly where they started, however
/// many cycles the chain has.
pub proof fn lemma_run_leaves_timers(states: Seq<EmuView>, rbs: Seq<u8>)
    requires
        states.len() >= 1,
        rbs.len() + 1 >= states.len(),
        forall|k: int| 0 <= k < states.len() - 1 ==> (#[trigger] states[k]).wf(),
        forall|k: int| 0 <= k < states.len() - 1 ==> spec_tick(states[k], rbs[k]) == Ok::<
            EmuView,
            Chip8Error,
        >(states[k + 1]),
        forall|k: int| 0 <= k < states.len() - 1 ==> !(spec_fetch_word(#[trigger] states[k])
            / 0x1000 == 0xF && (spec_fetch_word(states[k]) % 256 == 0x15 || spec_fetch_word(
            states[k],
        ) % 256 == 0x18)),
    ensures
        states.last().dt == states.first().dt,
        states.last().st == states.first().st,
    decreases states.len(),
{
    if states.len() > 1 {
        lemma_tick_leaves_timers(states[0], rbs[0]);
        let tail = states.drop_first();
        let rbs_tail = rbs.drop_first();
        assert forall|k: int| 0 <= k < tail.len() - 1 implies spec_tick(tail[k], rbs_tail[k])
            == Ok::<EmuView, Chip8Error>(tail[k + 1]) by {
            assert(tail[k] == states[k + 1]);
            assert(tail[k + 1] == states[k + 2]);
            assert(rbs_tail[k] == rbs[k + 1]);
        }
        assert forall|k: int| 0 <= k < tail.len() - 1 implies (#[trigger] tail[k]).wf() by {
            assert(tail[k] == states[k + 1]);
        }
        assert forall|k: int| 0 <= k < tail.len() - 1 implies !(spec_fetch_word(
            #[trigger] tail[k],
        ) / 0x1000 == 0xF && (spec_fetch_word(tail[k]) % 256 == 0x15 || spec_fetch_word(tail[k])
            % 256 == 0x18)) by {
            assert(tail[k] == states[k + 1]);
        }
        lemma_run_leaves_timers(tail, rbs_tail);
        assert(tail.first() == states[1]);
        assert(tail.last() == states.last());
    }
}

/// Drawing the same sprite twice at the same place: the first draw, onto a
/// screen with every cell unlit, reports no collision; the second draw
/// erases the sprite again, restoring the screen, and reports a collision
/// exactly when the sprite has any pixel set in its rows.
pub proof fn lemma_draw_twice(s: EmuView, op: u16, rb1: u8, rb2: u8)
    requires
        s.wf(),
        op / 0x1000 == 0xD,
        (op / 0x100) % 16 != 15,
        (op / 16) % 16 != 15,
        !(op % 16 > 0 && s.i + op % 16 > 4096),
        forall|c: int| 0 <= c < 2048 ==> !s.screen[c],
    ensures
        ({
            let n = (op % 16) as int;
            let r1 = spec_exec(s, op, rb1);
            &&& r1 is Ok
            &&& r1->Ok_0.v[15] == 0
            &&& ({
                let r2 = spec_exec(r1->Ok_0, op, rb2);
                &&& r2 is Ok
                &&& r2->Ok_0.screen == s.screen
                &&& (r2->Ok_0.v[15] == 1 <==> exists|row: int, col: int|
                    0 <= row < n && 0 <= col < 8 && #[trigger] sprite_bit(s.ram[s.i + row], col))
            })
        }),
{
    let x = ((op / 0x100) % 16) as int;
    let y = ((op / 16) % 16) as int;
    let n = (op % 16) as int;
    let i = s.i as int;
    let xr = (s.v[x] % 64) as int;
    let yr = (s.v[y] % 32) as int;

    // First draw: no target cell is lit, so no collision.
    if collision_prefix(s.screen, s.ram, i, xr, yr, n, 0) {
        let (r, cl) = choose|r: int, cl: int|
            0 <= r && 0 <= cl < 8 && (r < n || (r == n && cl < 0))
                && #[trigger] sprite_bit(s.ram[i + r], cl)
                && s.screen[cell_index(xr, yr, r, cl)];
        assert(0 <= cell_index(xr, yr, r, cl) < 2048);
        assert(false);
    }
    let s1 = spec_exec(s, op, rb1)->Ok_0;
    assert(s1.v[15] == 0);
    assert(s1.v[x] == s.v[x] && s1.v[y] == s.v[y]);

    // Second draw: same sprite, same origin, so the same cells toggle back.
    let s2 = spec_exec(s1, op, rb2)->Ok_0;
    assert forall|c: int| 0 <= c < 2048 implies s2.screen[c] == s.screen[c] by {
        assert(s1.screen[c] == (s.screen[c] != sprite_hits(s.ram, i, n, xr, yr, c)));
    }
    assert(s2.screen =~= s.screen);

    // The second collision flag is set exactly when some sprite pixel is set.
    if collision_prefix(s1.screen, s1.ram, i, xr, yr, n, 0) {
        let (r, cl) = choose|r: int, cl: int|
            0 <= r && 0 <= cl < 8 && (r < n || (r == n && cl < 0))
                && #[trigger] sprite_bit(s1.ram[i + r], cl)
                && s1.screen[cell_index(xr, yr, r, cl)];
        assert(sprite_bit(s.ram[i + r], cl));
    }
    if exists|row: int, col: int|
        0 <= row < n && 0 <= col < 8 && #[trigger] sprite_bit(s.ram[s.i + row], col) {
        let (row, col) = choose|row: int, col: int|
            0 <= row < n && 0 <= col < 8 && #[trigger] sprite_bit(s.ram[s.i + row], col);
        let t = cell_index(xr, yr, row, col);
        assert(hits_prefix(s.ram, i, xr, yr, n, 0, t));
        assert(0 <= t < 2048);
        assert(s1.screen[t]);
        assert(collision_prefix(s1.screen, s1.ram, i, xr, yr, n, 0));
    }
}

} // verus!
