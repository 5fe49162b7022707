//! Mathematical model of the machine state and of one execution step.
//!
//! `Vm` is the abstract value of the whole machine. `spec_step` says, for
//! every opcode, exactly which state the execute entry point must produce
//! and which effect signal (or fault) it must return; `spec_fetch` does the
//! same for the fetch entry point. The executable code in `cpu` is proved
//! against these functions.

use vstd::prelude::*;
use crate::decode::{op_hi, op_x, op_y, op_n, op_nn, op_nnn};

verus! {

/// Effect signal returned by one execute step: the host-visible
/// consequence of the instruction, and nothing else.
#[derive(Clone, Copy, Debug, PartialEq, Eq, Structural)]
pub enum ExecutionEffect {
    NoEffect,
    DisplayUpdate,
    JumpToSelf,
    WaitingForKey,
    Sound,
}

/// A terminable machine fault. CHIP-8 defines no behavior for these
/// conditions, so they are surfaced as errors instead of being ignored
/// or allowed to corrupt state.
#[derive(Clone, Copy, Debug, PartialEq, Eq, Structural)]
pub enum Fault {
    /// A return instruction ran with an empty call stack.
    StackUnderflow,
    /// A memory access through the program counter or the index register
    /// would run past the top of the 4096-byte address space.
    AddressOverrun,
    /// A program image longer than the 3584 bytes available above 0x200.
    ProgramTooLarge,
}

/// Abstract machine state: the view of the executable `Chip8` struct.
#[verifier::ext_equal]
pub ghost struct Vm {
    /// 4096-byte address space.
    pub mem: Seq<u8>,
    /// 64 x 32 framebuffer, row-major, each cell 0 or 1.
    pub disp: Seq<u8>,
    /// Program counter.
    pub pc: u16,
    /// Index register I.
    pub i: u16,
    /// Call stack of return addresses.
    pub stack: Seq<u16>,
    pub delay_timer: u8,
    pub sound_timer: u8,
    /// The 16 general-purpose registers V0..VF.
    pub v: Seq<u8>,
    /// Behavior set for the ambiguous shift / jump-offset / register
    /// store-load instructions.
    pub modern: bool,
    /// Current pressed state of the 16 logical keys.
    pub keypad: Seq<bool>,
    /// Edge-triggered latch: a key went down since the wait-for-key
    /// instruction last consumed it.
    pub key_pressed: bool,
    /// Index of the most recently pressed key.
    pub pressed_key: u8,
}

pub const MEM_SIZE: usize = 4096;

pub const DISP_SIZE: usize = 2048;

pub const PROG_START: usize = 0x200;

impl Vm {
    /// Structural well-formedness: fixed sizes and the framebuffer
    /// restricted to 0/1 cells.
    pub open spec fn wf(self) -> bool {
        &&& self.mem.len() == MEM_SIZE
        &&& self.disp.len() == DISP_SIZE
        &&& (forall|d: int| 0 <= d < DISP_SIZE ==> self.disp[d] <= 1)
        &&& self.v.len() == 16
        &&& self.keypad.len() == 16
        &&& self.pressed_key < 16
    }
}

/// The big-endian 16-bit word at address `p`.
pub open spec fn word_at(mem: Seq<u8>, p: int) -> u16 {
    (mem[p] * 0x100 + mem[p + 1]) as u16
}

/// One fetch: read the word at PC and advance PC by 2, or fault if the
/// read would run past the top of memory.
pub open spec fn spec_fetch(vm: Vm) -> (Vm, Result<u16, Fault>) {
    if vm.pc + 2 <= MEM_SIZE {
        (Vm { pc: (vm.pc + 2) as u16, ..vm }, Ok(word_at(vm.mem, vm.pc as int)))
    } else {
        (vm, Err(Fault::AddressOverrun))
    }
}

/// One host-paced timer tick on a single countdown byte: decrement,
/// saturating at zero.
pub open spec fn spec_tick(t: u8) -> u8 {
    if t > 0 {
        (t - 1) as u8
    } else {
        0
    }
}

/// The value of timer `t` after `k` ticks.
pub open spec fn spec_ticks(t: u8, k: nat) -> u8
    decreases k,
{
    if k == 0 {
        t
    } else {
        spec_tick(spec_ticks(t, (k - 1) as nat))
    }
}

/// Byte addition, wrapping modulo 256.
pub open spec fn wadd(a: u8, b: u8) -> u8 {
    ((a + b) % 0x100) as u8
}

/// Byte subtraction, wrapping modulo 256.
pub open spec fn wsub(a: u8, b: u8) -> u8 {
    (((a - b) + 0x100) % 0x100) as u8
}

/// Result of a right shift: new V[X] and the shifted-out bit. Under the
/// modern behavior set the source is V[X] and V[Y] is ignored; under the
/// legacy one V[X] is first overwritten by V[Y].
pub open spec fn shr_result(vx: u8, vy: u8, modern: bool) -> (u8, u8) {
    let src = if modern {
        vx
    } else {
        vy
    };
    ((src / 2) as u8, (src % 2) as u8)
}

/// Result of a left shift: new V[X] and the shifted-out bit, with the
/// same quirk rule as `shr_result`.
pub open spec fn shl_result(vx: u8, vy: u8, modern: bool) -> (u8, u8) {
    let src = if modern {
        vx
    } else {
        vy
    };
    (((src * 2) % 0x100) as u8, (src / 0x80) as u8)
}

/// Register file after an `8XYk` arithmetic/logic instruction.
pub open spec fn spec_alu(v: Seq<u8>, x: int, y: int, k: int, modern: bool) -> Seq<u8> {
    if k == 0 {
        v.update(x, v[y])
    } else if k == 1 {
        v.update(x, v[x] | v[y])
    } else if k == 2 {
        v.update(x, v[x] & v[y])
    } else if k == 3 {
        v.update(x, v[x] ^ v[y])
    } else if k == 4 {
        v.update(x, wadd(v[x], v[y])).update(15, if v[x] + v[y] > 0xFF { 1u8 } else { 0u8 })
    } else if k == 5 {
        v.update(x, wsub(v[x], v[y])).update(15, if v[x] >= v[y] { 1u8 } else { 0u8 })
    } else if k == 6 {
        let (r, f) = shr_result(v[x], v[y], modern);
        v.update(x, r).update(15, f)
    } else if k == 7 {
        v.update(x, wsub(v[y], v[x])).update(15, if v[y] >= v[x] { 1u8 } else { 0u8 })
    } else if k == 0xE {
        let (r, f) = shl_result(v[x], v[y], modern);
        v.update(x, r).update(15, f)
    } else {
        v
    }
}

/// True if bit `c` of sprite byte `b` is set, counting from the most
/// significant bit (`c = 0` is the leftmost pixel).
pub open spec fn sprite_bit(b: u8, c: int) -> bool {
    (b >> ((7 - c) as u8)) & 1 == 1
}

/// Framebuffer cell written by sprite row `r`, column `c`, for a sprite
/// origin `(vx, vy)`: coordinates wrap at the buffer edges per pixel.
pub open spec fn cell_at(vx: int, vy: int, r: int, c: int) -> int {
    ((vy + r) % 32) * 64 + ((vx + c) % 64)
}

/// Does drawing toggle cell `d`, counting only sprite positions strictly
/// before `(row, col)` in row-major scan order?
pub open spec fn toggled_before(
    mem: Seq<u8>,
    i: int,
    vx: int,
    vy: int,
    row: int,
    col: int,
    d: int,
) -> bool {
    exists|r: int, c: int|
        0 <= r && 0 <= c < 8 && (r < row || (r == row && c < col)) && sprite_bit(mem[i + r], c)
            && cell_at(vx, vy, r, c) == d
}

/// Does drawing the full `8 x n` sprite stored at `mem[i..i+n)` toggle
/// framebuffer cell `d`?
pub open spec fn toggled(mem: Seq<u8>, i: int, n: int, vx: int, vy: int, d: int) -> bool {
    toggled_before(mem, i, vx, vy, n, 0, d)
}

/// XOR of one framebuffer cell with a set sprite bit.
pub open spec fn flip(p: u8) -> u8 {
    if p == 0 {
        1
    } else {
        0
    }
}

/// Framebuffer after drawing the `8 x n` sprite at `mem[i..i+n)` with
/// origin `(vx, vy)`: every covered cell is toggled, every other cell is
/// untouched.
pub open spec fn draw_disp(disp: Seq<u8>, mem: Seq<u8>, i: int, n: int, vx: int, vy: int) -> Seq<
    u8,
> {
    Seq::new(
        DISP_SIZE as nat,
        |d: int|
            if toggled(mem, i, n, vx, vy, d) {
                flip(disp[d])
            } else {
                disp[d]
            },
    )
}

/// Did the draw erase some lit cell? That is the collision condition
/// recorded in VF.
pub open spec fn draw_collides(disp: Seq<u8>, mem: Seq<u8>, i: int, n: int, vx: int, vy: int) -> bool {
    exists|d: int| 0 <= d < DISP_SIZE && disp[d] == 1 && toggled(mem, i, n, vx, vy, d)
}

/// Hundreds digit of a byte.
pub open spec fn bcd_h(b: u8) -> u8 {
    (b / 100) as u8
}

/// Tens digit of a byte.
pub open spec fn bcd_t(b: u8) -> u8 {
    ((b / 10) % 10) as u8
}

/// Units digit of a byte.
pub open spec fn bcd_u(b: u8) -> u8 {
    (b % 10) as u8
}

/// Is key `k` currently held down? Keys outside the 0x0-0xF space are
/// never pressed.
pub open spec fn key_is_pressed(vm: Vm, k: u8) -> bool {
    k < 16 && vm.keypad[k as int]
}

/// Program counter after an optional conditional skip.
pub open spec fn skip_if(vm: Vm, cond: bool) -> Vm {
    if cond {
        Vm { pc: (vm.pc + 2) as u16, ..vm }
    } else {
        vm
    }
}

/// One execute step on a fetched opcode. `rnd` is the byte the random
/// source supplied; every instruction but `CXNN` ignores it. The result
/// pairs the new state with the effect signal, or keeps the old state
/// beside a fault.
pub open spec fn spec_step(vm: Vm, op: u16, rnd: u8) -> (Vm, Result<ExecutionEffect, Fault>) {
    let x = op_x(op) as int;
    let y = op_y(op) as int;
    let n = op_n(op) as int;
    let nn = op_nn(op) as u8;
    let nnn = op_nnn(op);
    if op == 0x00E0 {
        (
            Vm { disp: Seq::new(DISP_SIZE as nat, |d: int| 0u8), ..vm },
            Ok(ExecutionEffect::NoEffect),
        )
    } else if op == 0x00EE {
        if vm.stack.len() == 0 {
            (vm, Err(Fault::StackUnderflow))
        } else {
            (
                Vm { pc: vm.stack.last(), stack: vm.stack.drop_last(), ..vm },
                Ok(ExecutionEffect::NoEffect),
            )
        }
    } else if op_hi(op) == 0x1 {
        let eff = if nnn + 2 == vm.pc {
            ExecutionEffect::JumpToSelf
        } else {
            ExecutionEffect::NoEffect
        };
        (Vm { pc: nnn, ..vm }, Ok(eff))
    } else if op_hi(op) == 0x2 {
        (Vm { pc: nnn, stack: vm.stack.push(vm.pc), ..vm }, Ok(ExecutionEffect::NoEffect))
    } else if op_hi(op) == 0x3 {
        (skip_if(vm, vm.v[x] == nn), Ok(ExecutionEffect::NoEffect))
    } else if op_hi(op) == 0x4 {
        (skip_if(vm, vm.v[x] != nn), Ok(ExecutionEffect::NoEffect))
    } else if op_hi(op) == 0x5 && op_n(op) == 0 {
        (skip_if(vm, vm.v[x] == vm.v[y]), Ok(ExecutionEffect::NoEffect))
    } else if op_hi(op) == 0x6 {
        (Vm { v: vm.v.update(x, nn), ..vm }, Ok(ExecutionEffect::NoEffect))
    } else if op_hi(op) == 0x7 {
        (Vm { v: vm.v.update(x, wadd(vm.v[x], nn)), ..vm }, Ok(ExecutionEffect::NoEffect))
    } else if op_hi(op) == 0x8 {
        (Vm { v: spec_alu(vm.v, x, y, n, vm.modern), ..vm }, Ok(ExecutionEffect::NoEffect))
    } else if op_hi(op) == 0x9 && op_n(op) == 0 {
        (skip_if(vm, vm.v[x] != vm.v[y]), Ok(ExecutionEffect::NoEffect))
    } else if op_hi(op) == 0xA {
        (Vm { i: nnn, ..vm }, Ok(ExecutionEffect::NoEffect))
    } else if op_hi(op) == 0xB {
        let base = if vm.modern {
            vm.v[x]
        } else {
            vm.v[0]
        };
        (Vm { pc: (nnn + base) as u16, ..vm }, Ok(ExecutionEffect::NoEffect))
    } else if op_hi(op) == 0xC {
        (Vm { v: vm.v.update(x, rnd & nn), ..vm }, Ok(ExecutionEffect::NoEffect))
    } else if op_hi(op) == 0xD {
        if n > 0 && vm.i + n > MEM_SIZE {
            (vm, Err(Fault::AddressOverrun))
        } else {
            let vx = vm.v[x] as int;
            let vy = vm.v[y] as int;
            let disp2 = draw_disp(vm.disp, vm.mem, vm.i as int, n, vx, vy);
            let coll: u8 = if draw_collides(vm.disp, vm.mem, vm.i as int, n, vx, vy) {
                1
            } else {
                0
            };
            (
                Vm { disp: disp2, v: vm.v.update(15, coll), ..vm },
                Ok(ExecutionEffect::DisplayUpdate),
            )
        }
    } else if op_hi(op) == 0xE && op_nn(op) == 0x9E {
        (skip_if(vm, key_is_pressed(vm, vm.v[x])), Ok(ExecutionEffect::NoEffect))
    } else if op_hi(op) == 0xE && op_nn(op) == 0xA1 {
        (skip_if(vm, !key_is_pressed(vm, vm.v[x])), Ok(ExecutionEffect::NoEffect))
    } else if op_hi(op) == 0xF && op_nn(op) == 0x07 {
        (Vm { v: vm.v.update(x, vm.delay_timer), ..vm }, Ok(ExecutionEffect::NoEffect))
    } else if op_hi(op) == 0xF && op_nn(op) == 0x0A {
        if !vm.key_pressed {
            (Vm { pc: (vm.pc - 2) as u16, ..vm }, Ok(ExecutionEffect::WaitingForKey))
        } else {
            (
                Vm { v: vm.v.update(x, vm.pressed_key), key_pressed: false, ..vm },
                Ok(ExecutionEffect::NoEffect),
            )
        }
    } else if op_hi(op) == 0xF && op_nn(op) == 0x15 {
        (Vm { delay_timer: vm.v[x], ..vm }, Ok(ExecutionEffect::NoEffect))
    } else if op_hi(op) == 0xF && op_nn(op) == 0x18 {
        let eff = if vm.v[x] > 0 {
            ExecutionEffect::Sound
        } else {
            ExecutionEffect::NoEffect
        };
        (Vm { sound_timer: vm.v[x], ..vm }, Ok(eff))
    } else if op_hi(op) == 0xF && op_nn(op) == 0x1E {
        let sum = vm.i + vm.v[x];
        let carry: u8 = if sum > 0xFFFF {
            1
        } else {
            0
        };
        (
            Vm { i: (sum % 0x10000) as u16, v: vm.v.update(15, carry), ..vm },
            Ok(ExecutionEffect::NoEffect),
        )
    } else if op_hi(op) == 0xF && op_nn(op) == 0x29 {
        (Vm { i: (vm.v[x] * 5) as u16, ..vm }, Ok(ExecutionEffect::NoEffect))
    } else if op_hi(op) == 0xF && op_nn(op) == 0x33 {
        if vm.i + 3 > MEM_SIZE {
            (vm, Err(Fault::AddressOverrun))
        } else {
            let b = vm.v[x];
            let mem2 = vm.mem.update(vm.i as int, bcd_h(b)).update(
                vm.i + 1,
                bcd_t(b),
            ).update(vm.i + 2, bcd_u(b));
            (Vm { mem: mem2, ..vm }, Ok(ExecutionEffect::NoEffect))
        }
    } else if op_hi(op) == 0xF && op_nn(op) == 0x55 {
        if vm.i + x + 1 > MEM_SIZE {
            (vm, Err(Fault::AddressOverrun))
        } else {
            let base = vm.i as int;
            let mem2 = Seq::new(
                MEM_SIZE as nat,
                |j: int|
                    if base <= j <= base + x {
                        vm.v[j - base]
                    } else {
                        vm.mem[j]
                    },
            );
            let i2 = if vm.modern {
                vm.i
            } else {
                (vm.i + x + 1) as u16
            };
            (Vm { mem: mem2, i: i2, ..vm }, Ok(ExecutionEffect::NoEffect))
        }
    } else if op_hi(op) == 0xF && op_nn(op) == 0x65 {
        if vm.i + x + 1 > MEM_SIZE {
            (vm, Err(Fault::AddressOverrun))
        } else {
            let base = vm.i as int;
            let v2 = Seq::new(
                16,
                |j: int|
                    if 0 <= j <= x {
                        vm.mem[base + j]
                    } else {
                        vm.v[j]
                    },
            );
            let i2 = if vm.modern {
                vm.i
            } else {
                (vm.i + x + 1) as u16
            };
            (Vm { v: v2, i: i2, ..vm }, Ok(ExecutionEffect::NoEffect))
        }
    } else {
        // Every pattern the table does not list is ignored.
        (vm, Ok(ExecutionEffect::NoEffect))
    }
}

/// The built-in font table: 16 glyphs of 5 bytes each, the 4x5 bit
/// patterns of the hex digits 0-F; glyph n occupies bytes [5n, 5n+5).
pub open spec fn font_seq() -> Seq<u8> {
    seq![
        0xF0u8, 0x90, 0x90, 0x90, 0xF0,  // 0
        0x20, 0x60, 0x20, 0x20, 0x70,  // 1
        0xF0, 0x10, 0xF0, 0x80, 0xF0,  // 2
        0xF0, 0x10, 0xF0, 0x10, 0xF0,  // 3
        0x90, 0x90, 0xF0, 0x10, 0x10,  // 4
        0xF0, 0x80, 0xF0, 0x10, 0xF0,  // 5
        0xF0, 0x80, 0xF0, 0x90, 0xF0,  // 6
        0xF0, 0x10, 0x20, 0x40, 0x40,  // 7
        0xF0, 0x90, 0xF0, 0x90, 0xF0,  // 8
        0xF0, 0x90, 0xF0, 0x10, 0xF0,  // 9
        0xF0, 0x90, 0xF0, 0x90, 0x90,  // A
        0xE0, 0x90, 0xE0, 0x90, 0xE0,  // B
        0xF0, 0x80, 0x80, 0x80, 0xF0,  // C
        0xE0, 0x90, 0x90, 0x90, 0xE0,  // D
        0xF0, 0x80, 0xF0, 0x80, 0xF0,  // E
        0xF0, 0x80, 0xF0, 0x80, 0x80,  // F
    ]
}

/// Is `op` the blocking key-wait instruction `FX0A`?
pub open spec fn is_wait_key(op: u16) -> bool {
    op_hi(op) == 0xF && op_nn(op) == 0x0A
}

/// Is `op` the random instruction `CXNN`? Only this instruction reads
/// the injected random byte.
pub open spec fn is_random(op: u16) -> bool {
    op_hi(op) == 0xC
}

} // verus!
// The lemmas below support the draw loop proof and the laws about it.

verus! {

/// Bounds of a framebuffer cell index: every sprite position writes a
/// cell inside the 64 x 32 buffer.
pub proof fn lemma_cell_at_bounds(vx: int, vy: int, r: int, c: int)
    requires
        0 <= vx,
        0 <= vy,
        0 <= r,
        0 <= c,
    ensures
        0 <= cell_at(vx, vy, r, c) < DISP_SIZE,
{
    assert(0 <= (vy + r) % 32 < 32);
    assert(0 <= (vx + c) % 64 < 64);
}

/// Distinct sprite positions of one draw write distinct framebuffer
/// cells: rows stay distinct modulo 32 and columns modulo 64.
pub proof fn lemma_cell_at_injective(vx: int, vy: int, r1: int, c1: int, r2: int, c2: int)
    requires
        0 <= vx,
        0 <= vy,
        0 <= r1 < 32,
        0 <= c1 < 8,
        0 <= r2 < 32,
        0 <= c2 < 8,
        r1 != r2 || c1 != c2,
    ensures
        cell_at(vx, vy, r1, c1) != cell_at(vx, vy, r2, c2),
{
    let dy1 = (vy + r1) % 32;
    let dy2 = (vy + r2) % 32;
    let dx1 = (vx + c1) % 64;
    let dx2 = (vx + c2) % 64;
    assert(0 <= dy1 < 32 && 0 <= dy2 < 32 && 0 <= dx1 < 64 && 0 <= dx2 < 64);
    if cell_at(vx, vy, r1, c1) == cell_at(vx, vy, r2, c2) {
        assert(dy1 * 64 + dx1 == dy2 * 64 + dx2);
        assert(dy1 == dy2 && dx1 == dx2);
        let q1 = (vy + r1) / 32;
        let q2 = (vy + r2) / 32;
        assert(vy + r1 == 32 * q1 + dy1);
        assert(vy + r2 == 32 * q2 + dy2);
        assert(r1 - r2 == 32 * (q1 - q2));
        assert(-32 < r1 - r2 < 32);
        assert(r1 == r2);
        let p1 = (vx + c1) / 64;
        let p2 = (vx + c2) / 64;
        assert(vx + c1 == 64 * p1 + dx1);
        assert(vx + c2 == 64 * p2 + dx2);
        assert(c1 - c2 == 64 * (p1 - p2));
        assert(-64 < c1 - c2 < 64);
        assert(c1 == c2);
        assert(false);
    }
}

/// The cell written at scan position (row, col) was not toggled by any
/// earlier scan position of the same draw.
pub proof fn lemma_not_yet_toggled(mem: Seq<u8>, i: int, vx: int, vy: int, row: int, col: int)
    requires
        0 <= vx,
        0 <= vy,
        0 <= row < 32,
        0 <= col < 8,
    ensures
        !toggled_before(mem, i, vx, vy, row, col, cell_at(vx, vy, row, col)),
{
    let d = cell_at(vx, vy, row, col);
    if toggled_before(mem, i, vx, vy, row, col, d) {
        let (r, c) = choose|r: int, c: int|
            0 <= r && 0 <= c < 8 && (r < row || (r == row && c < col)) && sprite_bit(
                mem[i + r],
                c,
            ) && cell_at(vx, vy, r, c) == d;
        lemma_cell_at_injective(vx, vy, r, c, row, col);
        assert(false);
    }
}

/// Advancing the scan by one column: the cells toggled before
/// (row, col + 1) are those toggled before (row, col), plus the cell of
/// position (row, col) itself when its sprite bit is set.
pub proof fn lemma_toggled_before_step(
    mem: Seq<u8>,
    i: int,
    vx: int,
    vy: int,
    row: int,
    col: int,
    d: int,
)
    requires
        0 <= row,
        0 <= col < 8,
    ensures
        toggled_before(mem, i, vx, vy, row, col + 1, d) <==> (toggled_before(
            mem,
            i,
            vx,
            vy,
            row,
            col,
            d,
        ) || (sprite_bit(mem[i + row], col) && cell_at(vx, vy, row, col) == d)),
{
    if toggled_before(mem, i, vx, vy, row, col + 1, d) {
        let (r, c) = choose|r: int, c: int|
            0 <= r && 0 <= c < 8 && (r < row || (r == row && c < col + 1)) && sprite_bit(
                mem[i + r],
                c,
            ) && cell_at(vx, vy, r, c) == d;
        if r == row && c == col {
            assert(sprite_bit(mem[i + row], col) && cell_at(vx, vy, row, col) == d);
        } else {
            assert(0 <= r && 0 <= c < 8 && (r < row || (r == row && c < col)) && sprite_bit(
                mem[i + r],
                c,
            ) && cell_at(vx, vy, r, c) == d);
            assert(toggled_before(mem, i, vx, vy, row, col, d));
        }
    }
    if toggled_before(mem, i, vx, vy, row, col, d) {
        let (r, c) = choose|r: int, c: int|
            0 <= r && 0 <= c < 8 && (r < row || (r == row && c < col)) && sprite_bit(
                mem[i + r],
                c,
            ) && cell_at(vx, vy, r, c) == d;
        assert(0 <= r && 0 <= c < 8 && (r < row || (r == row && c < col + 1)) && sprite_bit(
            mem[i + r],
            c,
        ) && cell_at(vx, vy, r, c) == d);
        assert(toggled_before(mem, i, vx, vy, row, col + 1, d));
    }
    if sprite_bit(mem[i + row], col) && cell_at(vx, vy, row, col) == d {
        assert(0 <= row && 0 <= col < 8 && (row < row || (row == row && col < col + 1))
            && sprite_bit(mem[i + row], col) && cell_at(vx, vy, row, col) == d);
        assert(toggled_before(mem, i, vx, vy, row, col + 1, d));
    }
}

/// Finishing a row: having scanned all eight columns of `row` is the
/// same as standing at the start of `row + 1`.
pub proof fn lemma_toggled_row_end(mem: Seq<u8>, i: int, vx: int, vy: int, row: int, d: int)
    requires
        0 <= row,
    ensures
        toggled_before(mem, i, vx, vy, row, 8, d) <==> toggled_before(
            mem,
            i,
            vx,
            vy,
            row + 1,
            0,
            d,
        ),
{
    if toggled_before(mem, i, vx, vy, row, 8, d) {
        let (r, c) = choose|r: int, c: int|
            0 <= r && 0 <= c < 8 && (r < row || (r == row && c < 8)) && sprite_bit(
                mem[i + r],
                c,
            ) && cell_at(vx, vy, r, c) == d;
        assert(0 <= r && 0 <= c < 8 && (r < row + 1 || (r == row + 1 && c < 0)) && sprite_bit(
            mem[i + r],
            c,
        ) && cell_at(vx, vy, r, c) == d);
        assert(toggled_before(mem, i, vx, vy, row + 1, 0, d));
    }
    if toggled_before(mem, i, vx, vy, row + 1, 0, d) {
        let (r, c) = choose|r: int, c: int|
            0 <= r && 0 <= c < 8 && (r < row + 1 || (r == row + 1 && c < 0)) && sprite_bit(
                mem[i + r],
                c,
            ) && cell_at(vx, vy, r, c) == d;
        assert(0 <= r && 0 <= c < 8 && (r < row || (r == row && c < 8)) && sprite_bit(
            mem[i + r],
            c,
        ) && cell_at(vx, vy, r, c) == d);
        assert(toggled_before(mem, i, vx, vy, row, 8, d));
    }
}

} // verus!
