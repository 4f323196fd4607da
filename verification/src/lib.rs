use vstd::prelude::*;

pub mod error;
pub mod pmm;
pub mod vmm;
pub mod process;
pub mod framebuffer;
pub mod terminal;
pub mod port;
pub mod modules;
pub mod interrupts;

verus! {
} // verus!
