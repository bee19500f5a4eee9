//! The concurrency kernel of a small protected-mode teaching operating
//! system: the fixed-capacity message queue that connects interrupt
//! handlers to tasks, the timer manager with its expiry-sorted list of armed
//! timers, and the priority scheduler with its round-robin rings; beside
//! them, the page allocator, the sheet stack of the compositor and the
//! decoders of the input devices.
use vstd::prelude::*;

pub mod descriptor_table;
pub mod error;
pub mod fifo;
pub mod file;
pub mod kernel;
pub mod keyboard;
pub mod memory;
pub mod mouse;
pub mod mt;
pub mod sheet;
pub mod timer;
pub mod vga;

verus! {

} // verus!
