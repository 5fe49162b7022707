//! Verified execution core of a CHIP-8 byte-code virtual machine.
//!
//! The library models the machine state (memory, registers, timers,
//! framebuffer, input latch) and proves the fetch/decode/execute cycle
//! against a mathematical step function. Rendering, audio and input
//! devices are the host's concern; the core only reports effect signals.

pub mod decode;
pub mod model;
pub mod cpu;
pub mod laws;
