//! General laws of the machine, proved once and for all inputs over the
//! model that the executable entry points are specified against.

use vstd::prelude::*;
use crate::decode::{op_hi, op_x, op_y, op_n, op_nnn, lemma_nibble_decomposition};
use crate::model::{
    Vm, ExecutionEffect, Fault, MEM_SIZE, DISP_SIZE, PROG_START, word_at, spec_fetch, spec_step,
    spec_ticks, draw_disp, draw_collides, toggled, sprite_bit, cell_at, flip, spec_alu,
    is_wait_key, lemma_cell_at_bounds,
};

verus! {

/// Drawing the same `8 x n` sprite twice at the same coordinates
/// returns the framebuffer to exactly its original contents: each draw
/// toggles the same set of cells, and toggling twice is the identity.
pub proof fn lemma_draw_twice(disp: Seq<u8>, mem: Seq<u8>, i: int, n: int, vx: int, vy: int)
    requires
        disp.len() == DISP_SIZE,
        forall|d: int| 0 <= d < DISP_SIZE ==> disp[d] <= 1,
    ensures
        draw_disp(draw_disp(disp, mem, i, n, vx, vy), mem, i, n, vx, vy) == disp,
{
    let d1 = draw_disp(disp, mem, i, n, vx, vy);
    let d2 = draw_disp(d1, mem, i, n, vx, vy);
    assert forall|d: int| 0 <= d < DISP_SIZE implies d2[d] == disp[d] by {
        assert(d1[d] == (if toggled(mem, i, n, vx, vy, d) {
            flip(disp[d])
        } else {
            disp[d]
        }));
    }
    assert(d2 =~= disp);
}

/// On an all-zero framebuffer the first draw collides with nothing, and
/// the second draw of the same sprite reports a collision exactly when
/// the sprite has any set bit among its `n` rows — while wiping the
/// framebuffer back to zero (by `lemma_draw_twice`).
pub proof fn lemma_draw_twice_from_zero(
    disp: Seq<u8>,
    mem: Seq<u8>,
    i: int,
    n: int,
    vx: int,
    vy: int,
)
    requires
        disp.len() == DISP_SIZE,
        forall|d: int| 0 <= d < DISP_SIZE ==> disp[d] == 0,
        0 <= vx,
        0 <= vy,
    ensures
        !draw_collides(disp, mem, i, n, vx, vy),
        draw_collides(draw_disp(disp, mem, i, n, vx, vy), mem, i, n, vx, vy) <==> (exists|
            r: int,
            c: int,
        |
            0 <= r < n && 0 <= c < 8 && #[trigger] sprite_bit(mem[i + r], c)),
{
    let d1 = draw_disp(disp, mem, i, n, vx, vy);
    if draw_collides(d1, mem, i, n, vx, vy) {
        let d = choose|d: int|
            0 <= d < DISP_SIZE && d1[d] == 1 && toggled(mem, i, n, vx, vy, d);
        let (r, c) = choose|r: int, c: int|
            0 <= r && 0 <= c < 8 && (r < n || (r == n && c < 0)) && sprite_bit(mem[i + r], c)
                && cell_at(vx, vy, r, c) == d;
        assert(0 <= r < n && 0 <= c < 8 && sprite_bit(mem[i + r], c));
    }
    if exists|r: int, c: int| 0 <= r < n && 0 <= c < 8 && #[trigger] sprite_bit(mem[i + r], c) {
        let (r, c) = choose|r: int, c: int|
            0 <= r < n && 0 <= c < 8 && #[trigger] sprite_bit(mem[i + r], c);
        let d = cell_at(vx, vy, r, c);
        lemma_cell_at_bounds(vx, vy, r, c);
        assert(0 <= r && 0 <= c < 8 && (r < n || (r == n && c < 0)) && sprite_bit(mem[i + r], c)
            && cell_at(vx, vy, r, c) == d);
        assert(toggled(mem, i, n, vx, vy, d));
        assert(d1[d] == flip(disp[d]));
        assert(d1[d] == 1 && toggled(mem, i, n, vx, vy, d));
        assert(draw_collides(d1, mem, i, n, vx, vy));
    }
}

/// Executing the same draw instruction twice in a row restores the
/// framebuffer to what it showed before the first draw. The source
/// registers may not be VF, since the first draw overwrites it.
pub proof fn lemma_draw_step_twice(vm: Vm, op: u16)
    requires
        vm.wf(),
        op_hi(op) == 0xD,
        op_x(op) != 0xF,
        op_y(op) != 0xF,
        !(op_n(op) > 0 && vm.i + op_n(op) > MEM_SIZE),
    ensures
        spec_step(spec_step(vm, op, 0).0, op, 0).0.disp == vm.disp,
{
    assert((0x00E0u16 >> 12) == 0x0u16) by (bit_vector);
    assert((0x00EEu16 >> 12) == 0x0u16) by (bit_vector);
    lemma_nibble_decomposition(op);
    let x = op_x(op) as int;
    let y = op_y(op) as int;
    let n = op_n(op) as int;
    let vx = vm.v[x] as int;
    let vy = vm.v[y] as int;
    let vm1 = spec_step(vm, op, 0).0;
    assert(vm1.disp == draw_disp(vm.disp, vm.mem, vm.i as int, n, vx, vy));
    assert(vm1.mem == vm.mem && vm1.i == vm.i);
    assert(vm1.v[x] == vm.v[x] && vm1.v[y] == vm.v[y]);
    assert forall|d: int| 0 <= d < DISP_SIZE implies vm1.disp[d] <= 1 by {
        assert(vm.disp[d] <= 1);
    }
    lemma_draw_twice(vm.disp, vm.mem, vm.i as int, n, vx, vy);
}

/// Under the modern behavior set a shift instruction reads only V[X]:
/// overwriting V[Y] beforehand changes nothing in the outcome but V[Y]
/// itself. (VF and X are excluded because the instruction writes them.)
pub proof fn lemma_shift_modern_vy_irrelevant(v: Seq<u8>, x: int, y: int, k: int, b: u8)
    requires
        v.len() == 16,
        0 <= x < 16,
        0 <= y < 16,
        x != y,
        y != 15,
        k == 6 || k == 0xE,
    ensures
        spec_alu(v.update(y, b), x, y, k, true) == spec_alu(v, x, y, k, true).update(y, b),
{
    assert(spec_alu(v.update(y, b), x, y, k, true) =~= spec_alu(v, x, y, k, true).update(y, b));
}

/// Under the legacy behavior set a shift instruction is the modern
/// shift run after V[X] is overwritten by V[Y].
pub proof fn lemma_shift_legacy_copies_vy(v: Seq<u8>, x: int, y: int, k: int)
    requires
        v.len() == 16,
        0 <= x < 16,
        0 <= y < 16,
        k == 6 || k == 0xE,
    ensures
        spec_alu(v, x, y, k, false) == spec_alu(v.update(x, v[y]), x, y, k, true),
{
    assert(spec_alu(v, x, y, k, false) =~= spec_alu(v.update(x, v[y]), x, y, k, true));
}

/// A timer is exactly `max(t - k, 0)` after `k` ticks: it decrements
/// once per tick and never goes below zero, however many ticks run.
pub proof fn lemma_timer_floor(t: u8, k: nat)
    ensures
        spec_ticks(t, k) == (if k <= t {
            (t - k) as u8
        } else {
            0u8
        }),
    decreases k,
{
    if k > 0 {
        lemma_timer_floor(t, (k - 1) as nat);
    }
}

/// With no key event latched, fetching and executing the blocking
/// key-wait instruction `FX0A` leaves the machine exactly as it stood
/// (the fetch advances the program counter by 2, the handler rewinds it
/// by 2) and reports that it waits for a key. Since the state is
/// unchanged, repeating the pair any number of times still changes
/// nothing.
pub proof fn lemma_wait_key_no_event(vm: Vm)
    requires
        vm.wf(),
        !vm.key_pressed,
        vm.pc + 2 <= MEM_SIZE,
        is_wait_key(word_at(vm.mem, vm.pc as int)),
    ensures
        ({
            let op = word_at(vm.mem, vm.pc as int);
            let vm1 = spec_fetch(vm).0;
            spec_fetch(vm).1 == Ok::<u16, Fault>(op) && spec_step(vm1, op, 0).0 == vm && spec_step(
                vm1,
                op,
                0,
            ).1 == Ok::<ExecutionEffect, Fault>(ExecutionEffect::WaitingForKey)
        }),
{
    let op = word_at(vm.mem, vm.pc as int);
    let vm1 = spec_fetch(vm).0;
    assert((0x00E0u16 >> 12) == 0x0u16) by (bit_vector);
    assert((0x00EEu16 >> 12) == 0x0u16) by (bit_vector);
    assert(spec_step(vm1, op, 0).0 =~= vm);
}

/// Once a key-down event is latched, the next execution of `FX0A`
/// consumes the latch, stores the most recently pressed key in V[X],
/// and lets the program counter advance normally.
pub proof fn lemma_wait_key_event(vm: Vm)
    requires
        vm.wf(),
        vm.key_pressed,
        vm.pc + 2 <= MEM_SIZE,
        is_wait_key(word_at(vm.mem, vm.pc as int)),
    ensures
        ({
            let op = word_at(vm.mem, vm.pc as int);
            let vm1 = spec_fetch(vm).0;
            spec_step(vm1, op, 0).0 == (Vm {
                pc: (vm.pc + 2) as u16,
                v: vm.v.update(op_x(op) as int, vm.pressed_key),
                key_pressed: false,
                ..vm
            }) && spec_step(vm1, op, 0).1 == Ok::<ExecutionEffect, Fault>(
                ExecutionEffect::NoEffect,
            )
        }),
{
    let op = word_at(vm.mem, vm.pc as int);
    let vm1 = spec_fetch(vm).0;
    lemma_nibble_decomposition(op);
    assert((0x00E0u16 >> 12) == 0x0u16) by (bit_vector);
    assert((0x00EEu16 >> 12) == 0x0u16) by (bit_vector);
    assert(spec_step(vm1, op, 0).0 =~= (Vm {
        pc: (vm.pc + 2) as u16,
        v: vm.v.update(op_x(op) as int, vm.pressed_key),
        key_pressed: false,
        ..vm
    }));
}

/// A jump `1NNN` whose target is the address of the jump instruction
/// itself is detected as a self-jump the first time it executes: the
/// program counter lands back on the instruction and the effect signal
/// says so.
pub proof fn lemma_self_jump_detected(vm: Vm)
    requires
        vm.wf(),
        vm.pc + 2 <= MEM_SIZE,
        op_hi(word_at(vm.mem, vm.pc as int)) == 0x1,
        op_nnn(word_at(vm.mem, vm.pc as int)) == vm.pc,
    ensures
        ({
            let op = word_at(vm.mem, vm.pc as int);
            let vm1 = spec_fetch(vm).0;
            spec_step(vm1, op, 0).0 == (Vm { pc: vm.pc, ..vm1 }) && spec_step(vm1, op, 0).1
                == Ok::<ExecutionEffect, Fault>(ExecutionEffect::JumpToSelf)
        }),
{
    let op = word_at(vm.mem, vm.pc as int);
    let vm1 = spec_fetch(vm).0;
    assert((0x00E0u16 >> 12) == 0x0u16) by (bit_vector);
    assert((0x00EEu16 >> 12) == 0x0u16) by (bit_vector);
    assert(spec_step(vm1, op, 0).0 =~= (Vm { pc: vm.pc, ..vm1 }));
}

/// Loading a program image and fetching immediately yields, as the
/// first opcode, the first two bytes of the image, big-endian combined.
pub proof fn lemma_first_fetch_after_load(vm: Vm, bin: Seq<u8>)
    requires
        vm.wf(),
        vm.pc == PROG_START,
        2 <= bin.len() <= MEM_SIZE - PROG_START,
    ensures
        ({
            let loaded = Vm {
                mem: vm.mem.take(PROG_START as int) + bin + vm.mem.skip(
                    PROG_START + bin.len(),
                ),
                ..vm
            };
            spec_fetch(loaded).1 == Ok::<u16, Fault>((bin[0] * 0x100 + bin[1]) as u16)
        }),
{
    let loaded = Vm {
        mem: vm.mem.take(PROG_START as int) + bin + vm.mem.skip(PROG_START + bin.len()),
        ..vm
    };
    assert(loaded.mem[PROG_START as int] == bin[0]);
    assert(loaded.mem[PROG_START + 1] == bin[1]);
}

} // verus!
