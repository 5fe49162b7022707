//! Executable machine state and the fetch/execute entry points, proved
//! against the model in `model`.

use vstd::prelude::*;
use crate::decode::{op_hi, op_x, op_nn};
use crate::decode::{nib_hi, nib_x, nib_y, nib_n, low_byte, low_tribble};
use crate::model::{
    Vm, ExecutionEffect, Fault, MEM_SIZE, DISP_SIZE, PROG_START, spec_fetch, spec_tick, spec_step,
    is_random, font_seq, spec_alu, draw_disp, draw_collides, toggled_before, cell_at, sprite_bit,
    flip, bcd_h, bcd_t, bcd_u, lemma_cell_at_bounds, lemma_not_yet_toggled,
    lemma_toggled_before_step, lemma_toggled_row_end,
};

verus! {

/// The whole machine: memory, framebuffer, registers, call stack, timers,
/// quirk configuration and input latch. Mutated only through the methods
/// below; its abstract value is the `Vm` view.
pub struct Chip8 {
    memory: Vec<u8>,
    display: Vec<u8>,
    pc: u16,
    i: u16,
    stack: Vec<u16>,
    delay_timer: u8,
    sound_timer: u8,
    v: Vec<u8>,
    modern: bool,
    keypad: Vec<bool>,
    key_pressed: bool,
    pressed_key: u8,
}

impl View for Chip8 {
    type V = Vm;

    closed spec fn view(&self) -> Vm {
        Vm {
            mem: self.memory@,
            disp: self.display@,
            pc: self.pc,
            i: self.i,
            stack: self.stack@,
            delay_timer: self.delay_timer,
            sound_timer: self.sound_timer,
            v: self.v@,
            modern: self.modern,
            keypad: self.keypad@,
            key_pressed: self.key_pressed,
            pressed_key: self.pressed_key,
        }
    }
}

/// A vector of `n` zero bytes.
fn zero_bytes(n: usize) -> (r: Vec<u8>)
    ensures
        r@ == Seq::new(n as nat, |j: int| 0u8),
{
    let mut r: Vec<u8> = Vec::new();
    let mut k: usize = 0;
    while k < n
        invariant
            k <= n,
            r@ =~= Seq::new(k as nat, |j: int| 0u8),
        decreases n - k,
    {
        r.push(0);
        k = k + 1;
        proof {
            assert(r@ =~= Seq::new(k as nat, |j: int| 0u8));
        }
    }
    proof {
        assert(r@ =~= Seq::new(n as nat, |j: int| 0u8));
    }
    r
}

/// A vector of 16 `false` key states.
fn clear_keys() -> (r: Vec<bool>)
    ensures
        r@ == Seq::new(16, |j: int| false),
{
    let mut r: Vec<bool> = Vec::new();
    let mut k: usize = 0;
    while k < 16
        invariant
            k <= 16,
            r@ =~= Seq::new(k as nat, |j: int| false),
        decreases 16 - k,
    {
        r.push(false);
        k = k + 1;
        proof {
            assert(r@ =~= Seq::new(k as nat, |j: int| false));
        }
    }
    proof {
        assert(r@ =~= Seq::new(16, |j: int| false));
    }
    r
}

/// The font table as a vector, for copying into memory.
fn font_table() -> (r: Vec<u8>)
    ensures
        r@ == font_seq(),
{
    let mut r: Vec<u8> = Vec::new();
    r.push(0xF0); r.push(0x90); r.push(0x90); r.push(0x90); r.push(0xF0);  // 0
    r.push(0x20); r.push(0x60); r.push(0x20); r.push(0x20); r.push(0x70);  // 1
    r.push(0xF0); r.push(0x10); r.push(0xF0); r.push(0x80); r.push(0xF0);  // 2
    r.push(0xF0); r.push(0x10); r.push(0xF0); r.push(0x10); r.push(0xF0);  // 3
    r.push(0x90); r.push(0x90); r.push(0xF0); r.push(0x10); r.push(0x10);  // 4
    r.push(0xF0); r.push(0x80); r.push(0xF0); r.push(0x10); r.push(0xF0);  // 5
    r.push(0xF0); r.push(0x80); r.push(0xF0); r.push(0x90); r.push(0xF0);  // 6
    r.push(0xF0); r.push(0x10); r.push(0x20); r.push(0x40); r.push(0x40);  // 7
    r.push(0xF0); r.push(0x90); r.push(0xF0); r.push(0x90); r.push(0xF0);  // 8
    r.push(0xF0); r.push(0x90); r.push(0xF0); r.push(0x10); r.push(0xF0);  // 9
    r.push(0xF0); r.push(0x90); r.push(0xF0); r.push(0x90); r.push(0x90);  // A
    r.push(0xE0); r.push(0x90); r.push(0xE0); r.push(0x90); r.push(0xE0);  // B
    r.push(0xF0); r.push(0x80); r.push(0x80); r.push(0x80); r.push(0xF0);  // C
    r.push(0xE0); r.push(0x90); r.push(0x90); r.push(0x90); r.push(0xE0);  // D
    r.push(0xF0); r.push(0x80); r.push(0xF0); r.push(0x80); r.push(0xF0);  // E
    r.push(0xF0); r.push(0x80); r.push(0xF0); r.push(0x80); r.push(0x80);  // F
    proof {
        assert(r@ =~= font_seq());
    }
    r
}

/// Relies on rand::random: draws one byte from the thread-local uniform
/// generator. Nothing is promised of its value.
#[verifier::external_body]
fn random_byte() -> u8 {
    rand::random::<u8>()
}

impl Chip8 {
    /// A fresh machine: zeroed memory, framebuffer, registers and timers,
    /// the program counter at the program start address, an empty call
    /// stack, all keys up, and the chosen quirk behavior set.
    pub fn new(modern: bool) -> (r: Chip8)
        ensures
            r@.wf(),
            r@.mem == Seq::new(MEM_SIZE as nat, |j: int| 0u8),
            r@.disp == Seq::new(DISP_SIZE as nat, |j: int| 0u8),
            r@.pc == PROG_START,
            r@.i == 0,
            r@.stack == Seq::<u16>::empty(),
            r@.delay_timer == 0,
            r@.sound_timer == 0,
            r@.v == Seq::new(16, |j: int| 0u8),
            r@.modern == modern,
            r@.keypad == Seq::new(16, |j: int| false),
            !r@.key_pressed,
            r@.pressed_key == 0,
    {
        let r = Chip8 {
            memory: zero_bytes(MEM_SIZE),
            display: zero_bytes(DISP_SIZE),
            pc: 0x200,
            i: 0,
            stack: Vec::new(),
            delay_timer: 0,
            sound_timer: 0,
            v: zero_bytes(16),
            modern,
            keypad: clear_keys(),
            key_pressed: false,
            pressed_key: 0,
        };
        proof {
            assert(r@.stack =~= Seq::<u16>::empty());
        }
        r
    }

    /// Copy the built-in font table into addresses [0, 80); the rest of
    /// the state is untouched.
    pub fn init(&mut self)
        requires
            old(self)@.wf(),
        ensures
            final(self)@.wf(),
            final(self)@ == (Vm { mem: font_seq() + old(self)@.mem.skip(80), ..old(self)@ }),
    {
        let f = font_table();
        let mut k: usize = 0;
        while k < 80
            invariant
                k <= 80,
                f@ == font_seq(),
                self.memory@.len() == MEM_SIZE,
                forall|j: int| 0 <= j < k ==> self.memory@[j] == font_seq()[j],
                forall|j: int| k <= j < MEM_SIZE ==> self.memory@[j] == old(self)@.mem[j],
                self@ == (Vm { mem: self.memory@, ..old(self)@ }),
            decreases 80 - k,
        {
            let b = f[k];
            self.memory.set(k, b);
            k = k + 1;
        }
        proof {
            assert(self.memory@ =~= font_seq() + old(self)@.mem.skip(80));
            assert(self@ =~= Vm { mem: font_seq() + old(self)@.mem.skip(80), ..old(self)@ });
        }
    }

    /// Load a program image at the program start address. An image longer
    /// than the 3584 available bytes is rejected whole, with the memory
    /// left unchanged.
    pub fn load_bin(&mut self, bin: &[u8]) -> (r: Result<(), Fault>)
        requires
            old(self)@.wf(),
        ensures
            final(self)@.wf(),
            bin@.len() <= MEM_SIZE - PROG_START ==> r == Ok::<(), Fault>(()) && final(self)@ == (Vm {
                mem: old(self)@.mem.take(PROG_START as int) + bin@ + old(self)@.mem.skip(
                    PROG_START + bin@.len(),
                ),
                ..old(self)@
            }),
            bin@.len() > MEM_SIZE - PROG_START ==> r == Err::<(), Fault>(Fault::ProgramTooLarge)
                && final(self)@ == old(self)@,
    {
        if bin.len() > MEM_SIZE - PROG_START {
            return Err(Fault::ProgramTooLarge);
        }
        let n = bin.len();
        let mut k: usize = 0;
        while k < n
            invariant
                k <= n,
                n == bin@.len(),
                n <= MEM_SIZE - PROG_START,
                self.memory@.len() == MEM_SIZE,
                forall|j: int| 0 <= j < k ==> self.memory@[PROG_START + j] == bin@[j],
                forall|j: int|
                    0 <= j < MEM_SIZE && !(PROG_START <= j < PROG_START + k) ==> self.memory@[j]
                        == old(self)@.mem[j],
                self@ == (Vm { mem: self.memory@, ..old(self)@ }),
            decreases n - k,
        {
            let b = bin[k];
            self.memory.set(PROG_START + k, b);
            k = k + 1;
        }
        proof {
            assert(self.memory@ =~= old(self)@.mem.take(PROG_START as int) + bin@ + old(
                self,
            )@.mem.skip(PROG_START + bin@.len()));
            assert(self@ =~= Vm {
                mem: old(self)@.mem.take(PROG_START as int) + bin@ + old(self)@.mem.skip(
                    PROG_START + bin@.len(),
                ),
                ..old(self)@
            });
        }
        Ok(())
    }

    /// Read-only view of the framebuffer: 64 x 32 cells, row-major, each
    /// 0 or 1.
    pub fn display(&self) -> (r: &Vec<u8>)
        ensures
            r@ == self@.disp,
    {
        &self.display
    }

    /// One host-paced timer tick: both countdown timers decrement,
    /// saturating at zero.
    pub fn decrement_timers(&mut self)
        ensures
            final(self)@ == (Vm {
                delay_timer: spec_tick(old(self)@.delay_timer),
                sound_timer: spec_tick(old(self)@.sound_timer),
                ..old(self)@
            }),
    {
        if self.delay_timer > 0 {
            self.delay_timer = self.delay_timer - 1;
        }
        if self.sound_timer > 0 {
            self.sound_timer = self.sound_timer - 1;
        }
        proof {
            assert(self@ =~= Vm {
                delay_timer: spec_tick(old(self)@.delay_timer),
                sound_timer: spec_tick(old(self)@.sound_timer),
                ..old(self)@
            });
        }
    }

    /// Current value of the sound timer; the host stops audio when it
    /// reaches zero.
    pub fn sound_timer(&self) -> (r: u8)
        ensures
            r == self@.sound_timer,
    {
        self.sound_timer
    }

    /// Current value of the delay timer.
    pub fn delay_timer(&self) -> (r: u8)
        ensures
            r == self@.delay_timer,
    {
        self.delay_timer
    }

    /// Value of general-purpose register V`r`.
    pub fn reg(&self, r: u8) -> (b: u8)
        requires
            r < 16,
            self@.wf(),
        ensures
            b == self@.v[r as int],
    {
        self.v[r as usize]
    }

    /// Current program counter.
    pub fn pc(&self) -> (r: u16)
        ensures
            r == self@.pc,
    {
        self.pc
    }

    /// Current value of the index register I.
    pub fn index_reg(&self) -> (r: u16)
        ensures
            r == self@.i,
    {
        self.i
    }

    /// Is logical key `key` currently held down?
    pub fn key_state(&self, key: u8) -> (r: bool)
        requires
            key < 16,
            self@.wf(),
        ensures
            r == self@.keypad[key as int],
    {
        self.keypad[key as usize]
    }

    /// A logical key went down: record it as held, remember it as the
    /// most recent key, and arm the edge-triggered latch that the
    /// key-wait instruction consumes.
    pub fn key_down(&mut self, key: u8)
        requires
            key < 16,
            old(self)@.wf(),
        ensures
            final(self)@.wf(),
            final(self)@ == (Vm {
                keypad: old(self)@.keypad.update(key as int, true),
                key_pressed: true,
                pressed_key: key,
                ..old(self)@
            }),
    {
        self.press_key(key);
    }

    fn press_key(&mut self, n: u8)
        requires
            n < 16,
            old(self)@.wf(),
        ensures
            final(self)@.wf(),
            final(self)@ == (Vm {
                keypad: old(self)@.keypad.update(n as int, true),
                key_pressed: true,
                pressed_key: n,
                ..old(self)@
            }),
    {
        self.keypad.set(n as usize, true);
        self.pressed_key = n;
        self.key_pressed = true;
        proof {
            assert(self@ =~= Vm {
                keypad: old(self)@.keypad.update(n as int, true),
                key_pressed: true,
                pressed_key: n,
                ..old(self)@
            });
        }
    }

    /// A logical key went up: only its held state is cleared; the
    /// edge-triggered latch is not disturbed.
    pub fn key_up(&mut self, key: u8)
        requires
            key < 16,
            old(self)@.wf(),
        ensures
            final(self)@.wf(),
            final(self)@ == (Vm {
                keypad: old(self)@.keypad.update(key as int, false),
                ..old(self)@
            }),
    {
        self.keypad.set(key as usize, false);
        proof {
            assert(self@ =~= Vm {
                keypad: old(self)@.keypad.update(key as int, false),
                ..old(self)@
            });
        }
    }

    /// Fetch the big-endian instruction word at the program counter and
    /// advance the counter past it, or fault if the read would run past
    /// the top of memory.
    pub fn fetch(&mut self) -> (r: Result<u16, Fault>)
        requires
            old(self)@.wf(),
        ensures
            final(self)@.wf(),
            (final(self)@, r) == spec_fetch(old(self)@),
    {
        if self.pc as usize + 2 > MEM_SIZE {
            return Err(Fault::AddressOverrun);
        }
        let b1 = self.memory[self.pc as usize] as u16;
        let b2 = self.memory[self.pc as usize + 1] as u16;
        self.pc = self.pc + 2;
        let w = (b1 << 8) | b2;
        proof {
            assert(b1 < 0x100 ==> ((b1 << 8) | b2) == b1 * 0x100 + b2) by (bit_vector)
                requires
                    b2 < 0x100,
            ;
            assert(self@ =~= spec_fetch(old(self)@).0);
        }
        Ok(w)
    }

    /// Clear the framebuffer to all zero (`00E0`).
    fn clear_screen(&mut self)
        requires
            old(self)@.wf(),
        ensures
            final(self)@ == (Vm {
                disp: Seq::new(DISP_SIZE as nat, |d: int| 0u8),
                ..old(self)@
            }),
    {
        self.display = zero_bytes(DISP_SIZE);
        proof {
            assert(self@ =~= (Vm { disp: Seq::new(DISP_SIZE as nat, |d: int| 0u8), ..old(self)@ }));
        }
    }

    /// The `8XYk` arithmetic/logic family: the register file becomes
    /// `spec_alu` of the old one.
    fn exec_alu(&mut self, x: u16, y: u16, k: u16)
        requires
            old(self)@.wf(),
            x < 16,
            y < 16,
            k < 16,
        ensures
            final(self)@.wf(),
            final(self)@ == (Vm {
                v: spec_alu(old(self)@.v, x as int, y as int, k as int, old(self)@.modern),
                ..old(self)@
            }),
    {
        let xi = x as usize;
        let yi = y as usize;
        let a = self.v[xi];
        let b = self.v[yi];
        match k {
            0x0 => {
                self.v.set(xi, b);
            },
            0x1 => {
                self.v.set(xi, a | b);
            },
            0x2 => {
                self.v.set(xi, a & b);
            },
            0x3 => {
                self.v.set(xi, a ^ b);
            },
            0x4 => {
                let s: u16 = a as u16 + b as u16;
                self.v.set(xi, (s % 0x100) as u8);
                self.v.set(15, if s > 0xFF { 1 } else { 0 });
            },
            0x5 => {
                let d: u16 = a as u16 + 0x100 - b as u16;
                self.v.set(xi, (d % 0x100) as u8);
                self.v.set(15, if a >= b { 1 } else { 0 });
            },
            0x6 => {
                let src = if self.modern { a } else { b };
                self.v.set(xi, src / 2);
                self.v.set(15, src % 2);
            },
            0x7 => {
                let d: u16 = b as u16 + 0x100 - a as u16;
                self.v.set(xi, (d % 0x100) as u8);
                self.v.set(15, if b >= a { 1 } else { 0 });
            },
            0xE => {
                let src = if self.modern { a } else { b };
                self.v.set(xi, ((src as u16 * 2) % 0x100) as u8);
                self.v.set(15, src / 0x80);
            },
            _ => {},
        }
        proof {
            assert(self@.v =~= spec_alu(
                old(self)@.v,
                x as int,
                y as int,
                k as int,
                old(self)@.modern,
            ));
            assert(self@ =~= (Vm {
                v: spec_alu(old(self)@.v, x as int, y as int, k as int, old(self)@.modern),
                ..old(self)@
            }));
        }
    }

    /// Store the three decimal digits of V[X] at I, I+1, I+2 (`FX33`),
    /// or fault if that would run past the top of memory.
    fn exec_bcd(&mut self, x: u16) -> (r: Result<ExecutionEffect, Fault>)
        requires
            old(self)@.wf(),
            x < 16,
        ensures
            final(self)@.wf(),
            old(self)@.i + 3 > MEM_SIZE ==> r == Err::<ExecutionEffect, Fault>(
                Fault::AddressOverrun,
            ) && final(self)@ == old(self)@,
            old(self)@.i + 3 <= MEM_SIZE ==> r == Ok::<ExecutionEffect, Fault>(
                ExecutionEffect::NoEffect,
            ) && final(self)@ == (Vm {
                mem: old(self)@.mem.update(old(self)@.i as int, bcd_h(old(self)@.v[x as int])).update(
                    old(self)@.i + 1,
                    bcd_t(old(self)@.v[x as int]),
                ).update(old(self)@.i + 2, bcd_u(old(self)@.v[x as int])),
                ..old(self)@
            }),
    {
        if self.i as usize + 3 > MEM_SIZE {
            return Err(Fault::AddressOverrun);
        }
        let b = self.v[x as usize];
        let base = self.i as usize;
        self.memory.set(base, b / 100);
        self.memory.set(base + 1, (b / 10) % 10);
        self.memory.set(base + 2, b % 10);
        proof {
            assert(self@ =~= (Vm {
                mem: old(self)@.mem.update(old(self)@.i as int, bcd_h(old(self)@.v[x as int])).update(
                    old(self)@.i + 1,
                    bcd_t(old(self)@.v[x as int]),
                ).update(old(self)@.i + 2, bcd_u(old(self)@.v[x as int])),
                ..old(self)@
            }));
        }
        Ok(ExecutionEffect::NoEffect)
    }

    /// Store V[0..=X] into memory at I (`FX55`); under the legacy
    /// behavior set I advances past the stored block.
    fn exec_store(&mut self, x: u16) -> (r: Result<ExecutionEffect, Fault>)
        requires
            old(self)@.wf(),
            x < 16,
        ensures
            final(self)@.wf(),
            old(self)@.i + x + 1 > MEM_SIZE ==> r == Err::<ExecutionEffect, Fault>(
                Fault::AddressOverrun,
            ) && final(self)@ == old(self)@,
            old(self)@.i + x + 1 <= MEM_SIZE ==> r == Ok::<ExecutionEffect, Fault>(
                ExecutionEffect::NoEffect,
            ) && final(self)@ == (Vm {
                mem: Seq::new(
                    MEM_SIZE as nat,
                    |j: int|
                        if old(self)@.i <= j <= old(self)@.i + x {
                            old(self)@.v[j - old(self)@.i]
                        } else {
                            old(self)@.mem[j]
                        },
                ),
                i: if old(self)@.modern {
                    old(self)@.i
                } else {
                    (old(self)@.i + x + 1) as u16
                },
                ..old(self)@
            }),
    {
        if self.i as usize + x as usize + 1 > MEM_SIZE {
            return Err(Fault::AddressOverrun);
        }
        let base = self.i as usize;
        let mut k: usize = 0;
        while k <= x as usize
            invariant
                old(self)@.wf(),
                x < 16,
                k <= x + 1,
                base == old(self)@.i,
                base + x + 1 <= MEM_SIZE,
                self.memory@.len() == MEM_SIZE,
                forall|j: int| base <= j < base + k ==> self.memory@[j] == old(self)@.v[j - base],
                forall|j: int|
                    0 <= j < MEM_SIZE && !(base <= j < base + k) ==> self.memory@[j] == old(
                        self,
                    )@.mem[j],
                self@ == (Vm { mem: self.memory@, ..old(self)@ }),
            decreases x + 1 - k,
        {
            let b = self.v[k];
            self.memory.set(base + k, b);
            k = k + 1;
        }
        if !self.modern {
            self.i = self.i + (x + 1);
        }
        proof {
            assert(self.memory@ =~= Seq::new(
                MEM_SIZE as nat,
                |j: int|
                    if old(self)@.i <= j <= old(self)@.i + x {
                        old(self)@.v[j - old(self)@.i]
                    } else {
                        old(self)@.mem[j]
                    },
            ));
            assert(self@ =~= (Vm {
                mem: Seq::new(
                    MEM_SIZE as nat,
                    |j: int|
                        if old(self)@.i <= j <= old(self)@.i + x {
                            old(self)@.v[j - old(self)@.i]
                        } else {
                            old(self)@.mem[j]
                        },
                ),
                i: if old(self)@.modern {
                    old(self)@.i
                } else {
                    (old(self)@.i + x + 1) as u16
                },
                ..old(self)@
            }));
        }
        Ok(ExecutionEffect::NoEffect)
    }

    /// Load V[0..=X] from memory at I (`FX65`); under the legacy
    /// behavior set I advances past the loaded block.
    fn exec_load(&mut self, x: u16) -> (r: Result<ExecutionEffect, Fault>)
        requires
            old(self)@.wf(),
            x < 16,
        ensures
            final(self)@.wf(),
            old(self)@.i + x + 1 > MEM_SIZE ==> r == Err::<ExecutionEffect, Fault>(
                Fault::AddressOverrun,
            ) && final(self)@ == old(self)@,
            old(self)@.i + x + 1 <= MEM_SIZE ==> r == Ok::<ExecutionEffect, Fault>(
                ExecutionEffect::NoEffect,
            ) && final(self)@ == (Vm {
                v: Seq::new(
                    16,
                    |j: int|
                        if 0 <= j <= x {
                            old(self)@.mem[old(self)@.i + j]
                        } else {
                            old(self)@.v[j]
                        },
                ),
                i: if old(self)@.modern {
                    old(self)@.i
                } else {
                    (old(self)@.i + x + 1) as u16
                },
                ..old(self)@
            }),
    {
        if self.i as usize + x as usize + 1 > MEM_SIZE {
            return Err(Fault::AddressOverrun);
        }
        let base = self.i as usize;
        let mut k: usize = 0;
        while k <= x as usize
            invariant
                old(self)@.wf(),
                x < 16,
                k <= x + 1,
                base == old(self)@.i,
                base + x + 1 <= MEM_SIZE,
                self.v@.len() == 16,
                forall|j: int| 0 <= j < k ==> self.v@[j] == old(self)@.mem[base + j],
                forall|j: int| k <= j < 16 ==> self.v@[j] == old(self)@.v[j],
                self@ == (Vm { v: self.v@, ..old(self)@ }),
            decreases x + 1 - k,
        {
            let b = self.memory[base + k];
            self.v.set(k, b);
            k = k + 1;
        }
        if !self.modern {
            self.i = self.i + (x + 1);
        }
        proof {
            assert(self.v@ =~= Seq::new(
                16,
                |j: int|
                    if 0 <= j <= x {
                        old(self)@.mem[old(self)@.i + j]
                    } else {
                        old(self)@.v[j]
                    },
            ));
            assert(self@ =~= (Vm {
                v: Seq::new(
                    16,
                    |j: int|
                        if 0 <= j <= x {
                            old(self)@.mem[old(self)@.i + j]
                        } else {
                            old(self)@.v[j]
                        },
                ),
                i: if old(self)@.modern {
                    old(self)@.i
                } else {
                    (old(self)@.i + x + 1) as u16
                },
                ..old(self)@
            }));
        }
        Ok(ExecutionEffect::NoEffect)
    }

    /// Draw the `8 x N` sprite at `mem[I..I+N)` with origin
    /// `(V[X] mod 64, V[Y] mod 32)` (`DXYN`): every set sprite bit XORs
    /// its framebuffer cell, and VF records whether any lit cell was
    /// erased. Faults if the sprite bytes would be read past the top of
    /// memory.
    fn exec_draw(&mut self, x: u16, y: u16, n: u16) -> (r: Result<ExecutionEffect, Fault>)
        requires
            old(self)@.wf(),
            x < 16,
            y < 16,
            n < 16,
        ensures
            final(self)@.wf(),
            (n > 0 && old(self)@.i + n > MEM_SIZE) ==> r == Err::<ExecutionEffect, Fault>(
                Fault::AddressOverrun,
            ) && final(self)@ == old(self)@,
            !(n > 0 && old(self)@.i + n > MEM_SIZE) ==> r == Ok::<ExecutionEffect, Fault>(
                ExecutionEffect::DisplayUpdate,
            ) && final(self)@ == (Vm {
                disp: draw_disp(
                    old(self)@.disp,
                    old(self)@.mem,
                    old(self)@.i as int,
                    n as int,
                    old(self)@.v[x as int] as int,
                    old(self)@.v[y as int] as int,
                ),
                v: old(self)@.v.update(
                    15,
                    if draw_collides(
                        old(self)@.disp,
                        old(self)@.mem,
                        old(self)@.i as int,
                        n as int,
                        old(self)@.v[x as int] as int,
                        old(self)@.v[y as int] as int,
                    ) {
                        1u8
                    } else {
                        0u8
                    },
                ),
                ..old(self)@
            }),
    {
        if n > 0 && self.i as usize + n as usize > MEM_SIZE {
            return Err(Fault::AddressOverrun);
        }
        let vx = self.v[x as usize] as usize;
        let vy = self.v[y as usize] as usize;
        let ghost m = self@.mem;
        let ghost i0 = self@.i as int;
        let ghost n0 = n as int;
        let ghost vx0 = vx as int;
        let ghost vy0 = vy as int;
        let ghost disp0 = self@.disp;
        let mut coll: bool = false;
        let mut row: usize = 0;
        while row < n as usize
            invariant
                old(self)@.wf(),
                x < 16,
                y < 16,
                n < 16,
                row <= n as usize,
                n0 == n as int,
                n0 > 0 ==> i0 + n0 <= MEM_SIZE,
                m == old(self)@.mem,
                i0 == old(self)@.i as int,
                disp0 == old(self)@.disp,
                vx0 == old(self)@.v[x as int] as int,
                vy0 == old(self)@.v[y as int] as int,
                0 <= vx0 < 256,
                0 <= vy0 < 256,
                vx as int == vx0,
                vy as int == vy0,
                self.display@.len() == DISP_SIZE,
                forall|d: int|
                    0 <= d < DISP_SIZE ==> self.display@[d] == (if toggled_before(
                        m,
                        i0,
                        vx0,
                        vy0,
                        row as int,
                        0,
                        d,
                    ) {
                        flip(disp0[d])
                    } else {
                        disp0[d]
                    }),
                coll <==> (exists|d: int|
                    0 <= d < DISP_SIZE && disp0[d] == 1 && toggled_before(
                        m,
                        i0,
                        vx0,
                        vy0,
                        row as int,
                        0,
                        d,
                    )),
                self@ == (Vm { disp: self.display@, ..old(self)@ }),
            decreases n as usize - row,
        {
            let spr = self.memory[self.i as usize + row];
            let mut col: usize = 0;
            while col < 8
                invariant
                    old(self)@.wf(),
                    x < 16,
                    y < 16,
                    n < 16,
                    row < n as usize,
                    col <= 8,
                    n0 == n as int,
                    i0 + n0 <= MEM_SIZE,
                    m == old(self)@.mem,
                    i0 == old(self)@.i as int,
                    disp0 == old(self)@.disp,
                    vx0 == old(self)@.v[x as int] as int,
                    vy0 == old(self)@.v[y as int] as int,
                    0 <= vx0 < 256,
                    0 <= vy0 < 256,
                    vx as int == vx0,
                    vy as int == vy0,
                    spr == m[i0 + row],
                    self.display@.len() == DISP_SIZE,
                    forall|d: int|
                        0 <= d < DISP_SIZE ==> self.display@[d] == (if toggled_before(
                            m,
                            i0,
                            vx0,
                            vy0,
                            row as int,
                            col as int,
                            d,
                        ) {
                            flip(disp0[d])
                        } else {
                            disp0[d]
                        }),
                    coll <==> (exists|d: int|
                        0 <= d < DISP_SIZE && disp0[d] == 1 && toggled_before(
                            m,
                            i0,
                            vx0,
                            vy0,
                            row as int,
                            col as int,
                            d,
                        )),
                    self@ == (Vm { disp: self.display@, ..old(self)@ }),
                decreases 8 - col,
            {
                let ghost coll_in = coll;
                let ghost dsp_in = self.display@;
                let sh: u8 = (7 - col) as u8;
                let bit = (spr >> sh) & 1;
                proof {
                    assert(sh == (7 - (col as int)) as u8);
                    assert((bit == 1) == sprite_bit(spr, col as int));
                }
                if bit == 1 {
                    let dx = (vx + col) % 64;
                    let dy = (vy + row) % 32;
                    let d = dy * 64 + dx;
                    proof {
                        assert(d as int == cell_at(vx0, vy0, row as int, col as int));
                        lemma_cell_at_bounds(vx0, vy0, row as int, col as int);
                        lemma_not_yet_toggled(m, i0, vx0, vy0, row as int, col as int);
                        assert(self.display@[d as int] == disp0[d as int]);
                    }
                    let cur = self.display[d];
                    if cur == 1 {
                        self.display.set(d, 0);
                        coll = true;
                    } else {
                        self.display.set(d, 1);
                    }
                    proof {
                        let ghost d0 = d as int;
                        assert(self.display@ =~= dsp_in.update(d0, flip(disp0[d0])));
                        assert forall|dd: int| 0 <= dd < DISP_SIZE implies self.display@[dd] == (
                        if toggled_before(m, i0, vx0, vy0, row as int, col as int + 1, dd) {
                            flip(disp0[dd])
                        } else {
                            disp0[dd]
                        }) by {
                            lemma_toggled_before_step(m, i0, vx0, vy0, row as int, col as int, dd);
                            if dd != d0 {
                                assert(cell_at(vx0, vy0, row as int, col as int) != dd);
                            }
                        }
                        if coll {
                            if coll_in {
                                let dd = choose|dd: int|
                                    0 <= dd < DISP_SIZE && disp0[dd] == 1 && toggled_before(
                                        m,
                                        i0,
                                        vx0,
                                        vy0,
                                        row as int,
                                        col as int,
                                        dd,
                                    );
                                lemma_toggled_before_step(
                                    m,
                                    i0,
                                    vx0,
                                    vy0,
                                    row as int,
                                    col as int,
                                    dd,
                                );
                                assert(disp0[dd] == 1 && toggled_before(
                                    m,
                                    i0,
                                    vx0,
                                    vy0,
                                    row as int,
                                    col as int + 1,
                                    dd,
                                ));
                            } else {
                                lemma_toggled_before_step(
                                    m,
                                    i0,
                                    vx0,
                                    vy0,
                                    row as int,
                                    col as int,
                                    d0,
                                );
                                assert(disp0[d0] == 1 && toggled_before(
                                    m,
                                    i0,
                                    vx0,
                                    vy0,
                                    row as int,
                                    col as int + 1,
                                    d0,
                                ));
                            }
                        } else {
                            if exists|dd: int|
                                0 <= dd < DISP_SIZE && disp0[dd] == 1 && toggled_before(
                                    m,
                                    i0,
                                    vx0,
                                    vy0,
                                    row as int,
                                    col as int + 1,
                                    dd,
                                ) {
                                let dd = choose|dd: int|
                                    0 <= dd < DISP_SIZE && disp0[dd] == 1 && toggled_before(
                                        m,
                                        i0,
                                        vx0,
                                        vy0,
                                        row as int,
                                        col as int + 1,
                                        dd,
                                    );
                                lemma_toggled_before_step(
                                    m,
                                    i0,
                                    vx0,
                                    vy0,
                                    row as int,
                                    col as int,
                                    dd,
                                );
                                assert(false);
                            }
                        }
                    }
                } else {
                    proof {
                        assert forall|dd: int| 0 <= dd < DISP_SIZE implies self.display@[dd] == (
                        if toggled_before(m, i0, vx0, vy0, row as int, col as int + 1, dd) {
                            flip(disp0[dd])
                        } else {
                            disp0[dd]
                        }) by {
                            lemma_toggled_before_step(m, i0, vx0, vy0, row as int, col as int, dd);
                        }
                        if coll {
                            let dd = choose|dd: int|
                                0 <= dd < DISP_SIZE && disp0[dd] == 1 && toggled_before(
                                    m,
                                    i0,
                                    vx0,
                                    vy0,
                                    row as int,
                                    col as int,
                                    dd,
                                );
                            lemma_toggled_before_step(m, i0, vx0, vy0, row as int, col as int, dd);
                            assert(disp0[dd] == 1 && toggled_before(
                                m,
                                i0,
                                vx0,
                                vy0,
                                row as int,
                                col as int + 1,
                                dd,
                            ));
                        } else {
                            if exists|dd: int|
                                0 <= dd < DISP_SIZE && disp0[dd] == 1 && toggled_before(
                                    m,
                                    i0,
                                    vx0,
                                    vy0,
                                    row as int,
                                    col as int + 1,
                                    dd,
                                ) {
                                let dd = choose|dd: int|
                                    0 <= dd < DISP_SIZE && disp0[dd] == 1 && toggled_before(
                                        m,
                                        i0,
                                        vx0,
                                        vy0,
                                        row as int,
                                        col as int + 1,
                                        dd,
                                    );
                                lemma_toggled_before_step(
                                    m,
                                    i0,
                                    vx0,
                                    vy0,
                                    row as int,
                                    col as int,
                                    dd,
                                );
                                assert(false);
                            }
                        }
                    }
                }
                col = col + 1;
            }
            proof {
                assert forall|dd: int| 0 <= dd < DISP_SIZE implies self.display@[dd] == (
                if toggled_before(m, i0, vx0, vy0, row as int + 1, 0, dd) {
                    flip(disp0[dd])
                } else {
                    disp0[dd]
                }) by {
                    lemma_toggled_row_end(m, i0, vx0, vy0, row as int, dd);
                }
                if coll {
                    let dd = choose|dd: int|
                        0 <= dd < DISP_SIZE && disp0[dd] == 1 && toggled_before(
                            m,
                            i0,
                            vx0,
                            vy0,
                            row as int,
                            8,
                            dd,
                        );
                    lemma_toggled_row_end(m, i0, vx0, vy0, row as int, dd);
                    assert(disp0[dd] == 1 && toggled_before(
                        m,
                        i0,
                        vx0,
                        vy0,
                        row as int + 1,
                        0,
                        dd,
                    ));
                } else {
                    if exists|dd: int|
                        0 <= dd < DISP_SIZE && disp0[dd] == 1 && toggled_before(
                            m,
                            i0,
                            vx0,
                            vy0,
                            row as int + 1,
                            0,
                            dd,
                        ) {
                        let dd = choose|dd: int|
                            0 <= dd < DISP_SIZE && disp0[dd] == 1 && toggled_before(
                                m,
                                i0,
                                vx0,
                                vy0,
                                row as int + 1,
                                0,
                                dd,
                            );
                        lemma_toggled_row_end(m, i0, vx0, vy0, row as int, dd);
                        assert(false);
                    }
                }
            }
            row = row + 1;
        }
        let flag: u8 = if coll {
            1
        } else {
            0
        };
        self.v.set(15, flag);
        proof {
            assert(self.display@ =~= draw_disp(disp0, m, i0, n0, vx0, vy0));
            assert(coll == draw_collides(disp0, m, i0, n0, vx0, vy0));
            assert(self@ =~= (Vm {
                disp: draw_disp(
                    old(self)@.disp,
                    old(self)@.mem,
                    old(self)@.i as int,
                    n as int,
                    old(self)@.v[x as int] as int,
                    old(self)@.v[y as int] as int,
                ),
                v: old(self)@.v.update(
                    15,
                    if draw_collides(
                        old(self)@.disp,
                        old(self)@.mem,
                        old(self)@.i as int,
                        n as int,
                        old(self)@.v[x as int] as int,
                        old(self)@.v[y as int] as int,
                    ) {
                        1u8
                    } else {
                        0u8
                    },
                ),
                ..old(self)@
            }));
        }
        Ok(ExecutionEffect::DisplayUpdate)
    }

    /// Execute one fetched opcode: the state moves to `spec_step` of the
    /// old state and the returned signal is the one `spec_step` pairs
    /// with it. Only the random instruction depends on the drawn byte,
    /// and for it some byte explains the outcome. The program counter
    /// bounds say that a fetch just succeeded: the instruction occupied
    /// `[pc - 2, pc)`.
    pub fn execute(&mut self, opcode: u16) -> (r: Result<ExecutionEffect, Fault>)
        requires
            old(self)@.wf(),
            2 <= old(self)@.pc <= MEM_SIZE,
        ensures
            final(self)@.wf(),
            !is_random(opcode) ==> (final(self)@, r) == spec_step(old(self)@, opcode, 0),
            is_random(opcode) ==> (exists|rnd: u8| (final(self)@, r) == spec_step(
                old(self)@,
                opcode,
                rnd,
            )),
    {
        let ghost pre = old(self)@;
        let x = nib_x(opcode);
        let y = nib_y(opcode);
        let n = nib_n(opcode);
        let nn = low_byte(opcode);
        let nnn = low_tribble(opcode);
        if opcode == 0x00E0 {
            self.clear_screen();
            proof {
                assert(self@ =~= spec_step(pre, opcode, 0).0);
            }
            Ok(ExecutionEffect::NoEffect)
        } else if opcode == 0x00EE {
            match self.stack.pop() {
                Some(a) => {
                    self.pc = a;
                    proof {
                        assert(self@.stack =~= pre.stack.drop_last());
                        assert(self@ =~= spec_step(pre, opcode, 0).0);
                    }
                    Ok(ExecutionEffect::NoEffect)
                },
                None => {
                    proof {
                        assert(self@ =~= pre);
                    }
                    Err(Fault::StackUnderflow)
                },
            }
        } else {
            let hi = nib_hi(opcode);
            match hi {
                0x1 => {
                    let old_pc = self.pc;
                    self.pc = nnn;
                    proof {
                        assert(self@ =~= spec_step(pre, opcode, 0).0);
                    }
                    if nnn + 2 == old_pc {
                        Ok(ExecutionEffect::JumpToSelf)
                    } else {
                        Ok(ExecutionEffect::NoEffect)
                    }
                },
                0x2 => {
                    self.stack.push(self.pc);
                    self.pc = nnn;
                    proof {
                        assert(self@ =~= spec_step(pre, opcode, 0).0);
                    }
                    Ok(ExecutionEffect::NoEffect)
                },
                0x3 => {
                    if self.v[x as usize] == nn {
                        self.pc = self.pc + 2;
                    }
                    proof {
                        assert(self@ =~= spec_step(pre, opcode, 0).0);
                    }
                    Ok(ExecutionEffect::NoEffect)
                },
                0x4 => {
                    if self.v[x as usize] != nn {
                        self.pc = self.pc + 2;
                    }
                    proof {
                        assert(self@ =~= spec_step(pre, opcode, 0).0);
                    }
                    Ok(ExecutionEffect::NoEffect)
                },
                0x5 => {
                    if n == 0 {
                        if self.v[x as usize] == self.v[y as usize] {
                            self.pc = self.pc + 2;
                        }
                    }
                    proof {
                        assert(self@ =~= spec_step(pre, opcode, 0).0);
                    }
                    Ok(ExecutionEffect::NoEffect)
                },
                0x6 => {
                    self.v.set(x as usize, nn);
                    proof {
                        assert(self@ =~= spec_step(pre, opcode, 0).0);
                    }
                    Ok(ExecutionEffect::NoEffect)
                },
                0x7 => {
                    let s: u16 = self.v[x as usize] as u16 + nn as u16;
                    self.v.set(x as usize, (s % 0x100) as u8);
                    proof {
                        assert(self@ =~= spec_step(pre, opcode, 0).0);
                    }
                    Ok(ExecutionEffect::NoEffect)
                },
                0x8 => {
                    self.exec_alu(x, y, n);
                    proof {
                        assert(self@ =~= spec_step(pre, opcode, 0).0);
                    }
                    Ok(ExecutionEffect::NoEffect)
                },
                0x9 => {
                    if n == 0 {
                        if self.v[x as usize] != self.v[y as usize] {
                            self.pc = self.pc + 2;
                        }
                    }
                    proof {
                        assert(self@ =~= spec_step(pre, opcode, 0).0);
                    }
                    Ok(ExecutionEffect::NoEffect)
                },
                0xA => {
                    self.i = nnn;
                    proof {
                        assert(self@ =~= spec_step(pre, opcode, 0).0);
                    }
                    Ok(ExecutionEffect::NoEffect)
                },
                0xB => {
                    let base = if self.modern {
                        self.v[x as usize]
                    } else {
                        self.v[0]
                    };
                    self.pc = nnn + base as u16;
                    proof {
                        assert(self@ =~= spec_step(pre, opcode, 0).0);
                    }
                    Ok(ExecutionEffect::NoEffect)
                },
                0xC => {
                    let rb = random_byte();
                    self.v.set(x as usize, rb & nn);
                    proof {
                        assert(self@ =~= spec_step(pre, opcode, rb).0);
                        assert((self@, Ok::<ExecutionEffect, Fault>(ExecutionEffect::NoEffect))
                            == spec_step(pre, opcode, rb));
                    }
                    Ok(ExecutionEffect::NoEffect)
                },
                0xD => {
                    let r = self.exec_draw(x, y, n);
                    proof {
                        if n > 0 && pre.i + n > MEM_SIZE {
                            assert(self@ =~= spec_step(pre, opcode, 0).0);
                        } else {
                            assert(self@ =~= spec_step(pre, opcode, 0).0);
                        }
                    }
                    r
                },
                0xE => {
                    if nn == 0x9E {
                        let key = self.v[x as usize];
                        if key < 16 && self.keypad[key as usize] {
                            self.pc = self.pc + 2;
                        }
                        proof {
                            assert(self@ =~= spec_step(pre, opcode, 0).0);
                        }
                    } else if nn == 0xA1 {
                        let key = self.v[x as usize];
                        if !(key < 16 && self.keypad[key as usize]) {
                            self.pc = self.pc + 2;
                        }
                        proof {
                            assert(self@ =~= spec_step(pre, opcode, 0).0);
                        }
                    } else {
                        proof {
                            assert(self@ =~= spec_step(pre, opcode, 0).0);
                        }
                    }
                    Ok(ExecutionEffect::NoEffect)
                },
                0xF => self.exec_misc(opcode, x, nn),
                _ => {
                    proof {
                        assert(self@ =~= spec_step(pre, opcode, 0).0);
                    }
                    Ok(ExecutionEffect::NoEffect)
                },
            }
        }
    }

    /// The `FX..` family: timers, key wait, index arithmetic, font
    /// lookup, decimal conversion and register store/load.
    fn exec_misc(&mut self, opcode: u16, x: u16, nn: u8) -> (r: Result<ExecutionEffect, Fault>)
        requires
            old(self)@.wf(),
            2 <= old(self)@.pc <= MEM_SIZE,
            op_hi(opcode) == 0xF,
            x == op_x(opcode),
            x < 16,
            nn == op_nn(opcode),
        ensures
            final(self)@.wf(),
            (final(self)@, r) == spec_step(old(self)@, opcode, 0),
    {
        let ghost pre = old(self)@;
        proof {
            assert((0x00E0u16 >> 12) == 0x0u16) by (bit_vector);
            assert((0x00EEu16 >> 12) == 0x0u16) by (bit_vector);
        }
        match nn {
            0x07 => {
                self.v.set(x as usize, self.delay_timer);
                proof {
                    assert(self@ =~= spec_step(pre, opcode, 0).0);
                }
                Ok(ExecutionEffect::NoEffect)
            },
            0x0A => {
                if !self.key_pressed {
                    self.pc = self.pc - 2;
                    proof {
                        assert(self@ =~= spec_step(pre, opcode, 0).0);
                    }
                    Ok(ExecutionEffect::WaitingForKey)
                } else {
                    self.v.set(x as usize, self.pressed_key);
                    self.key_pressed = false;
                    proof {
                        assert(self@ =~= spec_step(pre, opcode, 0).0);
                    }
                    Ok(ExecutionEffect::NoEffect)
                }
            },
            0x15 => {
                self.delay_timer = self.v[x as usize];
                proof {
                    assert(self@ =~= spec_step(pre, opcode, 0).0);
                }
                Ok(ExecutionEffect::NoEffect)
            },
            0x18 => {
                self.sound_timer = self.v[x as usize];
                proof {
                    assert(self@ =~= spec_step(pre, opcode, 0).0);
                }
                if self.sound_timer > 0 {
                    Ok(ExecutionEffect::Sound)
                } else {
                    Ok(ExecutionEffect::NoEffect)
                }
            },
            0x1E => {
                let s: u32 = self.i as u32 + self.v[x as usize] as u32;
                self.i = (s % 0x10000) as u16;
                self.v.set(15, if s > 0xFFFF { 1 } else { 0 });
                proof {
                    assert(self@ =~= spec_step(pre, opcode, 0).0);
                }
                Ok(ExecutionEffect::NoEffect)
            },
            0x29 => {
                self.i = self.v[x as usize] as u16 * 5;
                proof {
                    assert(self@ =~= spec_step(pre, opcode, 0).0);
                }
                Ok(ExecutionEffect::NoEffect)
            },
            0x33 => {
                let r = self.exec_bcd(x);
                proof {
                    assert((self@, r) == spec_step(pre, opcode, 0));
                }
                r
            },
            0x55 => {
                let r = self.exec_store(x);
                proof {
                    assert((self@, r) == spec_step(pre, opcode, 0));
                }
                r
            },
            0x65 => {
                let r = self.exec_load(x);
                proof {
                    assert((self@, r) == spec_step(pre, opcode, 0));
                }
                r
            },
            _ => {
                proof {
                    assert(self@ =~= spec_step(pre, opcode, 0).0);
                }
                Ok(ExecutionEffect::NoEffect)
            },
        }
    }
}

} // verus!
