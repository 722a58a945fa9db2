//! Task control blocks and the values that describe them.
use vstd::prelude::*;

use crate::consts::{FRAME_WORDS, NO_PRIORITIES, STACK_MARKER, STACK_WORDS};

verus! {

/// Identity of a task.
#[derive(Clone, Copy, Debug, PartialEq, Eq, Structural, Hash)]
pub struct TaskId(pub usize);

/// Scheduling level of a task; a lower number is serviced first.
#[derive(Clone, Copy, Debug, PartialEq, Eq, Structural, Hash)]
pub struct Priority(pub u8);

/// Lifecycle state of a task.
#[derive(Clone, Copy, Debug, PartialEq, Eq, Structural)]
pub enum TaskStatus {
    /// Retired: waiting in the finished queue to be reclaimed.
    Invalid,
    /// Queued in the ready queue of its level.
    Ready,
    /// Bound to the core.
    Running,
    /// Suspended until it is woken up.
    Blocked,
    /// Exited; still registered because the core may stand on its stack.
    Finished,
    /// The idle task, which is always eligible and never finishes.
    Idle,
}

/// A stack that holds nothing yet.
pub open spec fn zero_stack() -> Seq<u64> {
    Seq::new(STACK_WORDS as nat, |i: int| 0u64)
}

/// Whether `p` is one of the levels that the ready queues serve.
pub open spec fn valid_prio(p: u8) -> bool {
    (p as int) < NO_PRIORITIES
}

/// The initial execution context that the first switch into a task
/// restores: zeroed callee-saved registers, the address at which the task
/// starts, and the guard word at the top of the stack.
pub open spec fn initial_frame(entry: u64) -> Seq<u64> {
    seq![0u64, 0u64, 0u64, 0u64, 0u64, 0u64, entry, STACK_MARKER]
}

/// Saved stack pointer (a word index into the task's stack) of a task that
/// has not run yet.
pub open spec fn initial_stack_pointer() -> u64 {
    (STACK_WORDS - FRAME_WORDS) as u64
}

/// A stack prepared for a first switch to `entry`: the lower part is kept,
/// the top holds the initial frame.
pub open spec fn prepared_stack(old_stack: Seq<u64>, entry: u64) -> Seq<u64> {
    old_stack.subrange(0, STACK_WORDS - FRAME_WORDS) + initial_frame(entry)
}

/// Abstract value of a task control block.
pub struct TaskView {
    pub id: usize,
    pub prio: u8,
    pub status: TaskStatus,
    pub last_stack_pointer: u64,
    pub stack: Seq<u64>,
}

impl TaskView {
    /// The same task with another status.
    pub open spec fn with_status(self, s: TaskStatus) -> TaskView {
        TaskView { status: s, ..self }
    }

    /// Well-formed: a full stack and a valid level.
    pub open spec fn wf(self) -> bool {
        &&& self.stack.len() == STACK_WORDS
        &&& valid_prio(self.prio)
    }

    /// The task after it was (re)started at `entry` with level `prio`.
    pub open spec fn restarted(self, prio: u8, entry: u64) -> TaskView {
        TaskView {
            id: self.id,
            prio,
            status: TaskStatus::Ready,
            last_stack_pointer: initial_stack_pointer(),
            stack: prepared_stack(self.stack, entry),
        }
    }
}

/// A task control block: identity, level, status, the stack the task owns
/// and the stack pointer saved when it was last switched out.
pub struct Task {
    pub id: usize,
    pub prio: u8,
    pub status: TaskStatus,
    pub last_stack_pointer: u64,
    pub stack: Vec<u64>,
}

impl View for Task {
    type V = TaskView;

    open spec fn view(&self) -> TaskView {
        TaskView {
            id: self.id,
            prio: self.prio,
            status: self.status,
            last_stack_pointer: self.last_stack_pointer,
            stack: self.stack@,
        }
    }
}

impl Task {
    /// A task with a zeroed stack of its own and no saved context.
    pub fn new(id: TaskId, status: TaskStatus, prio: Priority) -> (t: Task)
        requires
            valid_prio(prio.0),
        ensures
            t@.id == id.0,
            t@.prio == prio.0,
            t@.status == status,
            t@.last_stack_pointer == 0,
            t@.stack == zero_stack(),
            t@.wf(),
    {
        let stack: Vec<u64> = vec![0u64; STACK_WORDS];
        proof {
            assert(stack@ =~= zero_stack());
        }
        Task { id: id.0, prio: prio.0, status, last_stack_pointer: 0, stack }
    }

    pub fn id(&self) -> (r: TaskId)
        ensures
            r.0 == self@.id,
    {
        TaskId(self.id)
    }

    pub fn prio(&self) -> (r: Priority)
        ensures
            r.0 == self@.prio,
    {
        Priority(self.prio)
    }

    pub fn status(&self) -> (r: TaskStatus)
        ensures
            r == self@.status,
    {
        self.status
    }

    pub fn last_stack_pointer(&self) -> (r: u64)
        ensures
            r == self@.last_stack_pointer,
    {
        self.last_stack_pointer
    }

    /// The words of the task's stack, lowest address first.
    pub fn stack(&self) -> (r: &Vec<u64>)
        ensures
            r@ == self@.stack,
    {
        &self.stack
    }

    pub fn set_status(&mut self, status: TaskStatus)
        ensures
            final(self)@ == old(self)@.with_status(status),
    {
        self.status = status;
    }

    /// Records where the task's context was saved when it was switched out.
    pub fn set_stack_pointer(&mut self, sp: u64)
        ensures
            final(self)@ == (TaskView { last_stack_pointer: sp, ..old(self)@ }),
    {
        self.last_stack_pointer = sp;
    }

    /// Writes the initial execution context on top of the stack, so that
    /// the task begins at `entry` when the core resumes it, and sets the
    /// saved stack pointer to the start of that context.
    pub fn create_stack_frame(&mut self, entry: u64)
        requires
            old(self)@.stack.len() == STACK_WORDS,
        ensures
            final(self)@ == (TaskView {
                last_stack_pointer: initial_stack_pointer(),
                stack: prepared_stack(old(self)@.stack, entry),
                ..old(self)@
            }),
    {
        let base: usize = STACK_WORDS - FRAME_WORDS;
        let mut i: usize = base;
        while i < STACK_WORDS - 2
            invariant
                base <= i <= STACK_WORDS - 2,
                self.stack@.len() == STACK_WORDS,
                self.id == old(self).id,
                self.prio == old(self).prio,
                self.status == old(self).status,
                self.last_stack_pointer == old(self).last_stack_pointer,
                forall|j: int| 0 <= j < base ==> self.stack@[j] == old(self).stack@[j],
                forall|j: int| base <= j < i ==> self.stack@[j] == 0u64,
            decreases STACK_WORDS - 2 - i,
        {
            self.stack[i] = 0u64;
            i = i + 1;
        }
        self.stack[STACK_WORDS - 2] = entry;
        self.stack[STACK_WORDS - 1] = STACK_MARKER;
        self.last_stack_pointer = base as u64;
        proof {
            assert(self.stack@ =~= prepared_stack(old(self)@.stack, entry));
        }
    }
}

} // verus!
