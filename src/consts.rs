//! Configuration of the scheduler.
use vstd::prelude::*;

verus! {

/// Number of priority levels; valid levels are `0 .. NO_PRIORITIES`.
/// A lower level is serviced first.
pub const NO_PRIORITIES: usize = 32;

/// Level of time-critical tasks, serviced before all others.
pub const REALTIME_PRIO: u8 = 0;

/// Level of tasks that take precedence over ordinary ones.
pub const HIGH_PRIO: u8 = 8;

/// Default level of ordinary tasks.
pub const NORMAL_PRIO: u8 = 16;

/// Lowest level, reserved for the idle task.
pub const LOW_PRIO: u8 = 31;

/// Size of a task's stack in 64-bit words (8 KiB).
pub const STACK_WORDS: usize = 1024;

/// Words occupied by the initial execution context at the top of a stack:
/// six callee-saved registers, the entry address and a guard word.
pub const FRAME_WORDS: usize = 8;

/// Guard word stored at the very top of a task's stack.
pub const STACK_MARKER: u64 = 0xDEAD_BEEF;

} // verus!
