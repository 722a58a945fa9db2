//! Abstract state of the scheduler and the effect of each operation on it.
use vstd::prelude::*;

use crate::consts::{FRAME_WORDS, LOW_PRIO, NO_PRIORITIES, STACK_WORDS};
use crate::task::{initial_frame, zero_stack, TaskId, TaskStatus, TaskView};

verus! {

/// What the caller must do after a dispatch: save the outgoing task's
/// context into its control block and resume the incoming one from
/// `new_stack_pointer`.
#[derive(Clone, Copy, Debug, PartialEq, Eq, Structural)]
pub struct ContextSwitch {
    pub old_id: TaskId,
    pub new_id: TaskId,
    pub new_stack_pointer: u64,
}

/// Number of values of `usize`.
pub open spec fn id_space() -> int {
    usize::MAX as int + 1
}

/// The value that follows `c` on the task-id counter, wrapping around.
pub open spec fn next_id(c: usize) -> usize {
    if c == usize::MAX {
        0
    } else {
        (c + 1) as usize
    }
}

/// How many steps of the counter lead from `c` to `x`.
pub open spec fn cyclic_dist(x: usize, c: usize) -> int {
    if x >= c {
        x - c
    } else {
        x + id_space() - c
    }
}

/// The control block of the idle task as initialisation creates it.
pub open spec fn idle_task_view(id: usize) -> TaskView {
    TaskView { id, prio: LOW_PRIO, status: TaskStatus::Idle, last_stack_pointer: 0, stack: zero_stack() }
}

/// The control block of a newly created task that starts at `entry`.
pub open spec fn new_task_view(id: usize, prio: u8, entry: u64) -> TaskView {
    TaskView {
        id,
        prio,
        status: TaskStatus::Ready,
        last_stack_pointer: 0,
        stack: zero_stack(),
    }.restarted(prio, entry)
}

/// The top of `stack` holds the initial context for a start at `entry`.
pub open spec fn initial_frame_at_top(stack: Seq<u64>, entry: u64) -> bool {
    &&& stack.len() == STACK_WORDS
    &&& stack.subrange(STACK_WORDS - FRAME_WORDS, STACK_WORDS as int) == initial_frame(entry)
}

/// The first level below `lim` whose ready queue is not empty.
pub open spec fn best_level(ready: Seq<Seq<usize>>, lim: int) -> Option<int>
    decreases lim,
{
    if lim <= 0 {
        None
    } else {
        match best_level(ready, lim - 1) {
            Some(l) => Some(l),
            None => if ready[lim - 1].len() > 0 {
                Some(lim - 1)
            } else {
                None
            },
        }
    }
}

/// The ready queues hold exactly the ready tasks, each once, in the queue
/// of its own level.
pub open spec fn queues_consistent(tasks: Map<usize, TaskView>, ready: Seq<Seq<usize>>) -> bool {
    &&& forall|p: int| 0 <= p < NO_PRIORITIES ==> #[trigger] ready[p].no_duplicates()
    &&& forall|p: int, i: int|
        0 <= p < NO_PRIORITIES && 0 <= i < ready[p].len() ==> {
            &&& tasks.contains_key(#[trigger] ready[p][i])
            &&& tasks[ready[p][i]].status == TaskStatus::Ready
            &&& tasks[ready[p][i]].prio == p
        }
    &&& forall|k: usize| #[trigger]
        tasks.contains_key(k) && tasks[k].status == TaskStatus::Ready ==> ready[tasks[k].prio
            as int].contains(k)
}

/// Abstract state: the task presently bound to the core, the idle task,
/// the task-id counter, the registry, one FIFO per level and the queue of
/// retired tasks awaiting reclamation.
pub struct SchedulerView {
    pub current: usize,
    pub idle: usize,
    pub counter: usize,
    pub initialized: bool,
    pub tasks: Map<usize, TaskView>,
    pub ready: Seq<Seq<usize>>,
    pub finished: Seq<usize>,
}

impl SchedulerView {
    /// The state of a scheduler that was constructed and not initialised.
    pub open spec fn fresh(self) -> bool {
        &&& !self.initialized
        &&& self.current == 0
        &&& self.idle == 0
        &&& self.counter == 0
        &&& self.tasks.is_empty()
        &&& self.ready =~= Seq::new(NO_PRIORITIES as nat, |i: int| Seq::<usize>::empty())
        &&& self.finished.len() == 0
    }

    pub open spec fn status(self, k: usize) -> TaskStatus {
        self.tasks[k].status
    }

    pub open spec fn has_status(self, k: usize, s: TaskStatus) -> bool {
        self.tasks.contains_key(k) && self.tasks[k].status == s
    }

    /// Invariant of an initialised scheduler.
    pub open spec fn inv(self) -> bool {
        self.inv_running_also(self.current)
    }

    /// The invariant, except that besides the current task the task `n`
    /// may be marked running too (the moment of a switch to `n`).
    pub open spec fn inv_running_also(self, n: usize) -> bool {
        &&& self.initialized
        &&& self.tasks.dom().finite()
        &&& self.ready.len() == NO_PRIORITIES
        &&& self.tasks.contains_key(self.idle)
        &&& self.tasks.contains_key(self.current)
        &&& self.tasks[self.idle].prio == LOW_PRIO
        &&& self.status(self.current) != TaskStatus::Invalid
        &&& forall|k: usize| #[trigger]
            self.tasks.contains_key(k) ==> {
                &&& self.tasks[k].id == k
                &&& self.tasks[k].wf()
                &&& (self.tasks[k].status == TaskStatus::Idle <==> k == self.idle)
                &&& (self.tasks[k].status == TaskStatus::Running ==> k == self.current || k == n)
                &&& (self.tasks[k].status == TaskStatus::Finished ==> k == self.current)
                &&& (self.tasks[k].status == TaskStatus::Invalid ==> self.finished.contains(k))
            }
        &&& queues_consistent(self.tasks, self.ready)
        &&& self.finished.no_duplicates()
        &&& forall|i: int|
            0 <= i < self.finished.len() ==> self.has_status(
                #[trigger] self.finished[i],
                TaskStatus::Invalid,
            )
    }

    /// `id` is the first value at or after the counter that no registered
    /// task holds.
    pub open spec fn first_free(self, id: usize) -> bool {
        &&& !self.tasks.contains_key(id)
        &&& forall|x: usize|
            cyclic_dist(x, self.counter) < cyclic_dist(id, self.counter)
                ==> #[trigger] self.tasks.contains_key(x)
    }

    /// Initialisation: the idle task takes the first id and becomes current.
    pub open spec fn with_idle_task(self) -> SchedulerView {
        let id = self.counter;
        SchedulerView {
            current: id,
            idle: id,
            counter: next_id(id),
            initialized: true,
            tasks: map![id => idle_task_view(id)],
            ..self
        }
    }

    pub open spec fn set_status(self, k: usize, s: TaskStatus) -> SchedulerView {
        SchedulerView { tasks: self.tasks.insert(k, self.tasks[k].with_status(s)), ..self }
    }

    /// Appends `k` to the ready queue of its level.
    pub open spec fn enqueue(self, k: usize) -> SchedulerView {
        let p = self.tasks[k].prio as int;
        SchedulerView { ready: self.ready.update(p, self.ready[p].push(k)), ..self }
    }

    /// Appends `k` to the queue of retired tasks.
    pub open spec fn retire(self, k: usize) -> SchedulerView {
        SchedulerView { finished: self.finished.push(k), ..self }
    }

    /// Spawning when a retired task is waiting: its control block is
    /// restarted in place and queued.
    pub open spec fn reuse_slot(self, prio: u8, entry: u64) -> SchedulerView {
        let id = self.finished[0];
        SchedulerView {
            tasks: self.tasks.insert(id, self.tasks[id].restarted(prio, entry)),
            finished: self.finished.drop_first(),
            ..self
        }.enqueue(id)
    }

    /// Spawning when no retired task is waiting: a new control block under
    /// `id` is registered and queued.
    pub open spec fn register_new(self, id: usize, prio: u8, entry: u64) -> SchedulerView {
        SchedulerView {
            tasks: self.tasks.insert(id, new_task_view(id, prio, entry)),
            counter: next_id(id),
            ..self
        }.enqueue(id)
    }

    /// Parks the current task until it is woken up.
    pub open spec fn block_current(self) -> SchedulerView {
        self.set_status(self.current, TaskStatus::Blocked)
    }

    /// Makes a blocked task ready again; anything else is left alone.
    pub open spec fn wakeup(self, k: usize) -> SchedulerView {
        if self.has_status(k, TaskStatus::Blocked) {
            self.set_status(k, TaskStatus::Ready).enqueue(k)
        } else {
            self
        }
    }

    /// Levels that dispatch searches: those up to the current task's own
    /// while it can still run, all of them otherwise.
    pub open spec fn search_limit(self) -> int {
        if self.status(self.current) == TaskStatus::Running {
            self.tasks[self.current].prio + 1
        } else {
            NO_PRIORITIES as int
        }
    }

    /// Binds the core to `n`: the outgoing task goes back to its queue if it
    /// could still run, or to the retired queue if it has finished.
    pub open spec fn switch_to(self, n: usize) -> (SchedulerView, Option<ContextSwitch>) {
        let cur = self.current;
        let st = self.status(cur);
        let s = if st == TaskStatus::Running {
            self.set_status(cur, TaskStatus::Ready).enqueue(cur)
        } else if st == TaskStatus::Finished {
            self.set_status(cur, TaskStatus::Invalid).retire(cur)
        } else {
            self
        };
        (
            SchedulerView { current: n, ..s },
            Some(
                ContextSwitch {
                    old_id: TaskId(cur),
                    new_id: TaskId(n),
                    new_stack_pointer: self.tasks[n].last_stack_pointer,
                },
            ),
        )
    }

    /// Dispatch: the front of the best non-empty queue within the search
    /// limit runs next; failing that the current task keeps the core if it
    /// can, and the idle task takes it if it cannot.
    pub open spec fn schedule(self) -> (SchedulerView, Option<ContextSwitch>) {
        let cur = self.current;
        match best_level(self.ready, self.search_limit()) {
            Some(l) => {
                let n = self.ready[l][0];
                let s = SchedulerView {
                    ready: self.ready.update(l, self.ready[l].drop_first()),
                    ..self
                }.set_status(n, TaskStatus::Running);
                if n == cur {
                    (s, None)
                } else {
                    s.switch_to(n)
                }
            },
            None => if self.status(cur) != TaskStatus::Running && cur != self.idle {
                self.switch_to(self.idle)
            } else {
                (self, None)
            },
        }
    }

    /// Reclaims the oldest retired task, if any.
    pub open spec fn cleanup(self) -> SchedulerView {
        if self.finished.len() > 0 {
            SchedulerView {
                tasks: self.tasks.remove(self.finished[0]),
                finished: self.finished.drop_first(),
                ..self
            }
        } else {
            self
        }
    }

    /// A voluntary reschedule: one reclamation step, then dispatch.
    pub open spec fn reschedule(self) -> (SchedulerView, Option<ContextSwitch>) {
        self.cleanup().schedule()
    }

    /// Termination of the current task followed by a reschedule.
    pub open spec fn exit_current(self) -> (SchedulerView, Option<ContextSwitch>) {
        self.set_status(self.current, TaskStatus::Finished).reschedule()
    }
}


/// Appending a task that becomes ready to the queue of its level keeps
/// the queues consistent.
pub proof fn lemma_enqueue_consistent(
    tasks: Map<usize, TaskView>,
    ready: Seq<Seq<usize>>,
    k: usize,
    v: TaskView,
)
    requires
        queues_consistent(tasks, ready),
        ready.len() == NO_PRIORITIES,
        forall|j: usize| #[trigger] tasks.contains_key(j) ==> (tasks[j].prio as int) < NO_PRIORITIES,
        !(tasks.contains_key(k) && tasks[k].status == TaskStatus::Ready),
        v.status == TaskStatus::Ready,
        (v.prio as int) < NO_PRIORITIES,
    ensures
        queues_consistent(
            tasks.insert(k, v),
            ready.update(v.prio as int, ready[v.prio as int].push(k)),
        ),
{
    let p = v.prio as int;
    let t = tasks.insert(k, v);
    let r = ready.update(p, ready[p].push(k));
    assert(!ready[p].contains(k)) by {
        if ready[p].contains(k) {
            let i = choose|i: int| 0 <= i < ready[p].len() && ready[p][i] == k;
            assert(tasks.contains_key(ready[p][i]));
        }
    }
    assert forall|q: int, i: int| 0 <= q < NO_PRIORITIES && 0 <= i < r[q].len() implies {
        &&& t.contains_key(#[trigger] r[q][i])
        &&& t[r[q][i]].status == TaskStatus::Ready
        &&& t[r[q][i]].prio == q
    } by {
        if q == p && i == ready[p].len() {
        } else {
            assert(r[q][i] == ready[q][i]);
            assert(tasks.contains_key(ready[q][i]));
        }
    }
    assert forall|j: usize| #[trigger] t.contains_key(j) && t[j].status == TaskStatus::Ready implies r[t[j].prio as int].contains(j) by {
        if j == k {
            assert(r[p][ready[p].len() as int] == k);
        } else {
            let q = tasks[j].prio as int;
            assert(ready[q].contains(j));
            let i = choose|i: int| 0 <= i < ready[q].len() && ready[q][i] == j;
            assert(r[q][i] == j);
        }
    }
    assert forall|q: int| 0 <= q < NO_PRIORITIES implies #[trigger] r[q].no_duplicates() by {
        assert(ready[q].no_duplicates());
    }
}

/// What `best_level` finds: the first non-empty queue below `lim`, with all
/// better levels empty; or no non-empty queue below `lim` at all.
pub proof fn lemma_best_level(ready: Seq<Seq<usize>>, lim: int)
    ensures
        match best_level(ready, lim) {
            Some(l) => {
                &&& 0 <= l < lim
                &&& ready[l].len() > 0
                &&& forall|j: int| 0 <= j < l ==> #[trigger] ready[j].len() == 0
            },
            None => forall|j: int| 0 <= j < lim ==> #[trigger] ready[j].len() == 0,
        },
    decreases lim,
{
    if lim > 0 {
        lemma_best_level(ready, lim - 1);
    }
}

/// Once a level is found, searching further levels finds the same one.
pub proof fn lemma_best_level_stable(ready: Seq<Seq<usize>>, a: int, b: int)
    requires
        a <= b,
        best_level(ready, a) is Some,
    ensures
        best_level(ready, b) == best_level(ready, a),
    decreases b - a,
{
    if a < b {
        lemma_best_level_stable(ready, a, b - 1);
    }
}

/// Dispatch preserves the invariant.
pub proof fn lemma_schedule_inv(s: SchedulerView)
    requires
        s.inv(),
    ensures
        s.schedule().0.inv(),
{
    lemma_best_level(s.ready, s.search_limit());
    let cur = s.current;
    match best_level(s.ready, s.search_limit()) {
        Some(l) => {
            let n = s.ready[l][0];
            let s0 = SchedulerView { ready: s.ready.update(l, s.ready[l].drop_first()), ..s };
            let s1 = s0.set_status(n, TaskStatus::Running);
            assert(s.has_status(n, TaskStatus::Ready));
            assert forall|p: int| 0 <= p < NO_PRIORITIES implies #[trigger] s1.ready[p].no_duplicates() by {
                if p == l {
                    assert(s.ready[l].no_duplicates());
                }
            }
            assert forall|k: usize| #[trigger] s1.tasks.contains_key(k) && s1.tasks[k].status == TaskStatus::Ready implies s1.ready[s1.tasks[k].prio as int].contains(k) by {
                let p = s.tasks[k].prio as int;
                assert(s.ready[p].contains(k));
                let i = choose|i: int| 0 <= i < s.ready[p].len() && s.ready[p][i] == k;
                if p == l {
                    assert(i != 0);
                    assert(s1.ready[p][i - 1] == k);
                }
            }
            assert forall|p: int, i: int| 0 <= p < NO_PRIORITIES && 0 <= i < s1.ready[p].len() implies {
                &&& s1.has_status(#[trigger] s1.ready[p][i], TaskStatus::Ready)
                &&& s1.tasks[s1.ready[p][i]].prio == p
            } by {
                if p == l {
                    assert(s1.ready[p][i] == s.ready[p][i + 1]);
                    assert(s.ready[l].no_duplicates());
                } else {
                    assert(s1.ready[p][i] == s.ready[p][i]);
                    assert(s.tasks[s.ready[p][i]].prio == p);
                }
            }
            if n == cur {
                assert(s1.inv());
            } else {
                lemma_switch_inv(s1, n);
            }
        },
        None => {
            if s.status(cur) != TaskStatus::Running && cur != s.idle {
                lemma_switch_inv(s, s.idle);
            }
        },
    }
}

/// Switching away from the current task to `n` preserves the invariant
/// when `n` is the only task marked running, or the idle task.
proof fn lemma_switch_inv(s: SchedulerView, n: usize)
    requires
        n != s.current,
        s.tasks.contains_key(n),
        s.status(n) == TaskStatus::Running || n == s.idle,
        s.inv_running_also(n),
    ensures
        s.switch_to(n).0.inv(),
{
    let cur = s.current;
    let st = s.status(cur);
    let t = s.switch_to(n).0;
    if st == TaskStatus::Running {
        lemma_enqueue_consistent(s.tasks, s.ready, cur, s.tasks[cur].with_status(TaskStatus::Ready));
    } else if st == TaskStatus::Finished {
        assert(!s.finished.contains(cur)) by {
            if s.finished.contains(cur) {
                let i = choose|i: int| 0 <= i < s.finished.len() && s.finished[i] == cur;
                assert(s.has_status(s.finished[i], TaskStatus::Invalid));
            }
        }
        assert forall|k: usize| #[trigger] t.tasks.contains_key(k) && t.tasks[k].status == TaskStatus::Invalid implies t.finished.contains(k) by {
            if k == cur {
                assert(t.finished[s.finished.len() as int] == cur);
            } else {
                let i = choose|i: int| 0 <= i < s.finished.len() && s.finished[i] == k;
                assert(t.finished[i] == k);
            }
        }
        assert forall|i: int| 0 <= i < t.finished.len() implies t.has_status(#[trigger] t.finished[i], TaskStatus::Invalid) by {
            if i < s.finished.len() {
                assert(t.finished[i] == s.finished[i]);
            }
        }
        assert forall|k: usize| #[trigger] t.tasks.contains_key(k) && t.tasks[k].status == TaskStatus::Ready implies t.ready[t.tasks[k].prio as int].contains(k) by {
            assert(s.tasks[k].status == TaskStatus::Ready);
        }
    }
}

/// Reclamation preserves the invariant and never frees the current task.
pub proof fn lemma_cleanup_inv(s: SchedulerView)
    requires
        s.inv(),
    ensures
        s.cleanup().inv(),
        s.cleanup().tasks.contains_key(s.current),
        s.cleanup().tasks.contains_key(s.idle),
{
    if s.finished.len() > 0 {
        let t = s.cleanup();
        let id = s.finished[0];
        assert(s.has_status(id, TaskStatus::Invalid));
        assert forall|k: usize| #[trigger] t.tasks.contains_key(k) && t.tasks[k].status == TaskStatus::Invalid implies t.finished.contains(k) by {
            let i = choose|i: int| 0 <= i < s.finished.len() && s.finished[i] == k;
            assert(i != 0);
            assert(t.finished[i - 1] == k);
        }
        assert forall|i: int| 0 <= i < t.finished.len() implies t.has_status(#[trigger] t.finished[i], TaskStatus::Invalid) by {
            assert(t.finished[i] == s.finished[i + 1]);
        }
        assert forall|p: int, i: int| 0 <= p < NO_PRIORITIES && 0 <= i < t.ready[p].len() implies {
            &&& t.has_status(#[trigger] t.ready[p][i], TaskStatus::Ready)
            &&& t.tasks[t.ready[p][i]].prio == p
        } by {
            assert(s.has_status(s.ready[p][i], TaskStatus::Ready));
        }
    }
}

/// Waking a task preserves the invariant.
pub proof fn lemma_wakeup_inv(s: SchedulerView, k: usize)
    requires
        s.inv(),
    ensures
        s.wakeup(k).inv(),
{
    if s.has_status(k, TaskStatus::Blocked) {
        lemma_enqueue_consistent(s.tasks, s.ready, k, s.tasks[k].with_status(TaskStatus::Ready));
    }
}

/// Blocking the running task preserves the invariant.
pub proof fn lemma_block_inv(s: SchedulerView)
    requires
        s.inv(),
        s.status(s.current) == TaskStatus::Running,
    ensures
        s.block_current().inv(),
{
    let t = s.block_current();
    assert forall|p: int, i: int| 0 <= p < NO_PRIORITIES && 0 <= i < t.ready[p].len() implies {
        &&& t.has_status(#[trigger] t.ready[p][i], TaskStatus::Ready)
        &&& t.tasks[t.ready[p][i]].prio == p
    } by {
        assert(s.has_status(s.ready[p][i], TaskStatus::Ready));
    }
}

/// Terminating the current task preserves the invariant, for any task but
/// the idle one that is not waiting in a ready queue.
pub proof fn lemma_finish_inv(s: SchedulerView)
    requires
        s.inv(),
        s.current != s.idle,
        s.status(s.current) != TaskStatus::Ready,
    ensures
        s.set_status(s.current, TaskStatus::Finished).inv(),
{
    let t = s.set_status(s.current, TaskStatus::Finished);
    assert forall|p: int, i: int| 0 <= p < NO_PRIORITIES && 0 <= i < t.ready[p].len() implies {
        &&& t.has_status(#[trigger] t.ready[p][i], TaskStatus::Ready)
        &&& t.tasks[t.ready[p][i]].prio == p
    } by {
        assert(s.has_status(s.ready[p][i], TaskStatus::Ready));
    }
    assert forall|i: int| 0 <= i < t.finished.len() implies t.has_status(#[trigger] t.finished[i], TaskStatus::Invalid) by {
        assert(s.has_status(s.finished[i], TaskStatus::Invalid));
    }
}

/// Restarting a retired task preserves the invariant.
pub proof fn lemma_reuse_inv(s: SchedulerView, prio: u8, entry: u64)
    requires
        s.inv(),
        s.finished.len() > 0,
        (prio as int) < NO_PRIORITIES,
    ensures
        s.reuse_slot(prio, entry).inv(),
{
    let id = s.finished[0];
    assert(s.has_status(id, TaskStatus::Invalid));
    let t = s.reuse_slot(prio, entry);
    lemma_enqueue_consistent(s.tasks, s.ready, id, s.tasks[id].restarted(prio, entry));
    assert forall|j: usize| #[trigger] t.tasks.contains_key(j) && t.tasks[j].status == TaskStatus::Invalid implies t.finished.contains(j) by {
        let i = choose|i: int| 0 <= i < s.finished.len() && s.finished[i] == j;
        assert(i != 0);
        assert(t.finished[i - 1] == j);
    }
    assert forall|i: int| 0 <= i < t.finished.len() implies t.has_status(#[trigger] t.finished[i], TaskStatus::Invalid) by {
        assert(t.finished[i] == s.finished[i + 1]);
        assert(s.has_status(s.finished[i + 1], TaskStatus::Invalid));
    }
}

/// Registering a new task under a free id preserves the invariant.
pub proof fn lemma_register_inv(s: SchedulerView, id: usize, prio: u8, entry: u64)
    requires
        s.inv(),
        !s.tasks.contains_key(id),
        (prio as int) < NO_PRIORITIES,
    ensures
        s.register_new(id, prio, entry).inv(),
{
    let t = s.register_new(id, prio, entry);
    lemma_enqueue_consistent(s.tasks, s.ready, id, new_task_view(id, prio, entry));
    assert forall|i: int| 0 <= i < t.finished.len() implies t.has_status(#[trigger] t.finished[i], TaskStatus::Invalid) by {
        assert(s.has_status(s.finished[i], TaskStatus::Invalid));
    }
}

} // verus!
