//! The scheduler: task creation, dispatch and deferred reclamation.
use vstd::prelude::*;

use std::collections::BTreeMap;
use std::collections::VecDeque;

use crate::consts::{LOW_PRIO, NORMAL_PRIO, NO_PRIORITIES};
use crate::model::{
    best_level, cyclic_dist, idle_task_view, lemma_best_level, lemma_best_level_stable, lemma_block_inv,
    lemma_cleanup_inv, lemma_finish_inv, lemma_register_inv, lemma_reuse_inv, lemma_schedule_inv,
    lemma_wakeup_inv, new_task_view, next_id, ContextSwitch, SchedulerView,
};
use crate::task::{valid_prio, Priority, Task, TaskId, TaskStatus, TaskView};

verus! {

/// Why a request to the scheduler was turned down.
#[derive(Clone, Copy, Debug, PartialEq, Eq, Structural)]
pub enum SchedulerError {
    /// The requested level lies outside `0 .. NO_PRIORITIES`.
    InvalidPriority,
}

/// State of the scheduler of one core.
pub struct Scheduler {
    /// task that is bound to the core
    current_tid: usize,
    /// the idle task
    idle_tid: usize,
    /// next candidate for a task id
    tid_counter: usize,
    /// whether the idle task was created
    initialized: bool,
    /// one FIFO of ready tasks per level
    ready_queues: Vec<VecDeque<usize>>,
    /// retired tasks whose control blocks are still to be released
    finished_tasks: VecDeque<usize>,
    /// registry of the control blocks by task id
    tasks: BTreeMap<usize, Task>,
}

impl View for Scheduler {
    type V = SchedulerView;

    closed spec fn view(&self) -> SchedulerView {
        SchedulerView {
            current: self.current_tid,
            idle: self.idle_tid,
            counter: self.tid_counter,
            initialized: self.initialized,
            tasks: self.tasks@.map_values(|t: Task| t@),
            ready: self.ready_queues@.map_values(|q: VecDeque<usize>| q@),
            finished: self.finished_tasks@,
        }
    }
}

impl Scheduler {
    /// Well-formed: initialised, with the invariant of the abstract state.
    pub open spec fn wf(&self) -> bool {
        self@.inv()
    }

    /// A scheduler with empty queues and no tasks; it is usable once
    /// `add_idle_task` has run.
    pub fn new() -> (r: Scheduler)
        ensures
            r@.fresh(),
    {
        let mut ready_queues: Vec<VecDeque<usize>> = Vec::new();
        let mut i: usize = 0;
        while i < NO_PRIORITIES
            invariant
                i <= NO_PRIORITIES,
                ready_queues@.len() == i,
                forall|j: int| 0 <= j < i ==> (#[trigger] ready_queues@[j])@.len() == 0,
            decreases NO_PRIORITIES - i,
        {
            ready_queues.push(VecDeque::new());
            i = i + 1;
        }
        let r = Scheduler {
            current_tid: 0,
            idle_tid: 0,
            tid_counter: 0,
            initialized: false,
            ready_queues,
            finished_tasks: VecDeque::new(),
            tasks: BTreeMap::new(),
        };
        proof {
            assert(r@.tasks =~= Map::empty());
            assert forall|j: int| 0 <= j < NO_PRIORITIES implies #[trigger] r@.ready[j] =~= Seq::<usize>::empty() by {
                assert(r.ready_queues@[j]@.len() == 0);
            }
            assert(r@.ready =~= Seq::new(NO_PRIORITIES as nat, |i: int| Seq::<usize>::empty()));
        }
        r
    }

    proof fn lemma_tasks_len(&self)
        ensures
            self@.tasks.dom() == self.tasks@.dom(),
            self.tasks.len() == self@.tasks.len(),
    {
        assert(self@.tasks.dom() =~= self.tasks@.dom());
    }

    /// Draws task ids from the counter until one is found that no
    /// registered task holds.
    fn get_tid(&mut self) -> (r: usize)
        ensures
            old(self)@.first_free(r),
            final(self)@ == (SchedulerView { counter: next_id(r), ..old(self)@ }),
            final(self).tasks@ == old(self).tasks@,
    {
        let ghost c0 = self.tid_counter;
        let ghost tried: Set<usize> = Set::empty();
        proof {
            self.lemma_tasks_len();
        }
        let mut j: usize = 0;
        loop
            invariant
                self.tasks == old(self).tasks,
                self.current_tid == old(self).current_tid,
                self.idle_tid == old(self).idle_tid,
                self.initialized == old(self).initialized,
                self.ready_queues == old(self).ready_queues,
                self.finished_tasks == old(self).finished_tasks,
                old(self).tid_counter == c0,
                self@.tasks.dom() == self.tasks@.dom(),
                self.tasks.len() == self@.tasks.len(),
                j <= self.tasks.len(),
                cyclic_dist(self.tid_counter, c0) == j,
                tried.finite(),
                tried.len() == j,
                tried.subset_of(self.tasks@.dom()),
                forall|x: usize| #[trigger] tried.contains(x) <==> cyclic_dist(x, c0) < j,
            decreases self.tasks.len() - j,
        {
            let id = self.tid_counter;
            self.tid_counter = if id == usize::MAX {
                0
            } else {
                id + 1
            };
            if !self.tasks.contains_key(&id) {
                return id;
            }
            proof {
                assert(!tried.contains(id));
                vstd::set_lib::lemma_len_subset(tried.insert(id), self.tasks@.dom());
                tried = tried.insert(id);
                assert forall|x: usize| #[trigger] tried.contains(x) <==> cyclic_dist(x, c0) < j + 1 by {
                    if cyclic_dist(x, c0) == j {
                        assert(x == id);
                    }
                }
            }
            j = j + 1;
        }
    }

    /// Creates the idle task, which takes the first task id and becomes the
    /// current task. Runs once, on a freshly constructed scheduler.
    pub fn add_idle_task(&mut self)
        requires
            old(self)@.fresh(),
        ensures
            final(self)@ == old(self)@.with_idle_task(),
            final(self).wf(),
            final(self)@.idle == 0,
    {
        proof {
            self.lemma_tasks_len();
            assert(self.tasks@ =~= Map::empty());
        }
        let id = self.get_tid();
        self.idle_tid = id;
        self.current_tid = id;
        let idle_task = Task::new(TaskId(id), TaskStatus::Idle, Priority(LOW_PRIO));
        let ghost idle_view = idle_task@;
        let ghost idle_task_value = idle_task;
        self.tasks.insert(id, idle_task);
        self.initialized = true;
        proof {
            let t = self@;
            let o = old(self)@.with_idle_task();
            assert(!old(self)@.tasks.contains_key(old(self)@.counter));
            assert(id == old(self)@.counter);
            assert(idle_view == idle_task_view(id));
            assert(self.tasks@ =~= map![id => idle_task_value]);
            assert(t.tasks =~= map![id => idle_view]);
            assert(t.tasks =~= o.tasks);
            assert(t =~= o);
        }
    }
}

impl Scheduler {
    /// Gives the registered task `id` another status.
    fn set_task_status(&mut self, id: usize, status: TaskStatus)
        requires
            old(self)@.tasks.contains_key(id),
        ensures
            final(self)@ == old(self)@.set_status(id, status),
    {
        let removed = self.tasks.remove(&id);
        match removed {
            Some(mut task) => {
                task.set_status(status);
                self.tasks.insert(id, task);
            },
            None => {},
        }
        proof {
            assert(self@.tasks =~= old(self)@.set_status(id, status).tasks);
        }
    }

    /// Level of the registered task `id`.
    fn prio_of(&self, id: usize) -> (r: u8)
        requires
            self@.tasks.contains_key(id),
        ensures
            r == self@.tasks[id].prio,
    {
        match self.tasks.get(&id) {
            Some(task) => task.prio,
            None => 0,
        }
    }

    /// Status of the registered task `id`.
    fn status_of(&self, id: usize) -> (r: TaskStatus)
        requires
            self@.tasks.contains_key(id),
        ensures
            r == self@.tasks[id].status,
    {
        match self.tasks.get(&id) {
            Some(task) => task.status,
            None => TaskStatus::Invalid,
        }
    }

    /// Appends the registered task `id` to the ready queue of its level.
    fn push_ready(&mut self, id: usize)
        requires
            old(self)@.tasks.contains_key(id),
            old(self)@.ready.len() == NO_PRIORITIES,
            (old(self)@.tasks[id].prio as int) < NO_PRIORITIES,
        ensures
            final(self)@ == old(self)@.enqueue(id),
    {
        let p = self.prio_of(id) as usize;
        self.ready_queues[p].push_back(id);
        proof {
            assert(self@.ready =~= old(self)@.enqueue(id).ready);
        }
    }
}

impl Scheduler {
    /// Creates a task that starts at `entry` with level `prio` and queues
    /// it. The control block of the oldest retired task is restarted in
    /// place if there is one; otherwise a new one is registered under the
    /// first free id that the counter yields.
    pub fn spawn(&mut self, entry: u64, prio: Priority) -> (r: Result<TaskId, SchedulerError>)
        requires
            old(self).wf(),
        ensures
            final(self).wf(),
            match r {
                Ok(id) => {
                    &&& valid_prio(prio.0)
                    &&& if old(self)@.finished.len() > 0 {
                        &&& id.0 == old(self)@.finished[0]
                        &&& final(self)@ == old(self)@.reuse_slot(prio.0, entry)
                    } else {
                        &&& old(self)@.first_free(id.0)
                        &&& final(self)@ == old(self)@.register_new(id.0, prio.0, entry)
                    }
                },
                Err(e) => {
                    &&& !valid_prio(prio.0)
                    &&& e == SchedulerError::InvalidPriority
                    &&& final(self)@ == old(self)@
                },
            },
    {
        if prio.0 as usize >= NO_PRIORITIES {
            return Err(SchedulerError::InvalidPriority);
        }
        let ghost s0 = self@;
        match self.finished_tasks.pop_front() {
            None => {
                let tid = self.get_tid();
                let mut task = Task::new(TaskId(tid), TaskStatus::Ready, prio);
                task.create_stack_frame(entry);
                let ghost v = task@;
                self.tasks.insert(tid, task);
                proof {
                    assert(v == new_task_view(tid, prio.0, entry));
                    assert(self@.tasks =~= s0.tasks.insert(tid, v));
                }
                self.push_ready(tid);
                proof {
                    assert(self@ =~= s0.register_new(tid, prio.0, entry));
                    lemma_register_inv(s0, tid, prio.0, entry);
                }
                Ok(TaskId(tid))
            },
            Some(tid) => {
                proof {
                    assert(s0.has_status(s0.finished[0], TaskStatus::Invalid));
                }
                let removed = self.tasks.remove(&tid);
                match removed {
                    Some(mut task) => {
                        task.status = TaskStatus::Ready;
                        task.prio = prio.0;
                        task.last_stack_pointer = 0;
                        task.create_stack_frame(entry);
                        let ghost v = task@;
                        self.tasks.insert(tid, task);
                        proof {
                            assert(v == s0.tasks[tid].restarted(prio.0, entry));
                            assert(self@.tasks =~= s0.tasks.insert(tid, v));
                        }
                    },
                    None => {},
                }
                self.push_ready(tid);
                proof {
                    assert(self@ =~= s0.reuse_slot(prio.0, entry));
                    lemma_reuse_inv(s0, prio.0, entry);
                }
                Ok(TaskId(tid))
            },
        }
    }

    /// Parks the running task; the returned handle wakes it up again.
    /// The caller is expected to reschedule next.
    pub fn block_current_task(&mut self) -> (r: TaskId)
        requires
            old(self).wf(),
            old(self)@.status(old(self)@.current) == TaskStatus::Running,
        ensures
            final(self).wf(),
            r.0 == old(self)@.current,
            final(self)@ == old(self)@.block_current(),
    {
        let id = self.current_tid;
        self.set_task_status(id, TaskStatus::Blocked);
        proof {
            lemma_block_inv(old(self)@);
        }
        TaskId(id)
    }

    /// Makes the task `task` ready again if it is blocked; otherwise
    /// nothing changes.
    pub fn wakeup_task(&mut self, task: TaskId)
        requires
            old(self).wf(),
        ensures
            final(self).wf(),
            final(self)@ == old(self)@.wakeup(task.0),
    {
        proof {
            lemma_wakeup_inv(old(self)@, task.0);
        }
        let id = task.0;
        if self.tasks.contains_key(&id) {
            if self.status_of(id) == TaskStatus::Blocked {
                self.set_task_status(id, TaskStatus::Ready);
                self.push_ready(id);
            }
        }
    }

    /// The task bound to the core.
    pub fn get_current_taskid(&self) -> (r: TaskId)
        ensures
            r.0 == self@.current,
    {
        TaskId(self.current_tid)
    }

    /// The idle task.
    pub fn get_idle_taskid(&self) -> (r: TaskId)
        ensures
            r.0 == self@.idle,
    {
        TaskId(self.idle_tid)
    }

    /// Level of the task `tid`, or the normal level if no such task is
    /// registered.
    pub fn get_priority(&self, tid: TaskId) -> (r: Priority)
        ensures
            self@.tasks.contains_key(tid.0) ==> r.0 == self@.tasks[tid.0].prio,
            !self@.tasks.contains_key(tid.0) ==> r.0 == NORMAL_PRIO,
    {
        match self.tasks.get(&tid.0) {
            Some(task) => Priority(task.prio),
            None => Priority(NORMAL_PRIO),
        }
    }

    /// Status of the task `tid`, if it is registered.
    pub fn get_status(&self, tid: TaskId) -> (r: Option<TaskStatus>)
        ensures
            self@.tasks.contains_key(tid.0) ==> r == Some(self@.tasks[tid.0].status),
            !self@.tasks.contains_key(tid.0) ==> r is None,
    {
        match self.tasks.get(&tid.0) {
            Some(task) => Some(task.status),
            None => None,
        }
    }

    /// Control block of the task `tid`, if it is registered.
    pub fn get_task(&self, tid: TaskId) -> (r: Option<&Task>)
        ensures
            self@.tasks.contains_key(tid.0) ==> r is Some && r->Some_0@ == self@.tasks[tid.0],
            !self@.tasks.contains_key(tid.0) ==> r is None,
    {
        self.tasks.get(&tid.0)
    }

    /// Records the stack pointer at which the context of the task `tid` was
    /// saved when the core switched away from it.
    pub fn save_stack_pointer(&mut self, tid: TaskId, sp: u64)
        requires
            old(self).wf(),
        ensures
            final(self).wf(),
            old(self)@.tasks.contains_key(tid.0) ==> final(self)@ == (SchedulerView {
                tasks: old(self)@.tasks.insert(
                    tid.0,
                    TaskView { last_stack_pointer: sp, ..old(self)@.tasks[tid.0] },
                ),
                ..old(self)@
            }),
            !old(self)@.tasks.contains_key(tid.0) ==> final(self)@ == old(self)@,
    {
        let removed = self.tasks.remove(&tid.0);
        match removed {
            Some(mut task) => {
                task.set_stack_pointer(sp);
                self.tasks.insert(tid.0, task);
            },
            None => {},
        }
        proof {
            let o = old(self)@;
            if o.tasks.contains_key(tid.0) {
                let t = o.tasks.insert(tid.0, TaskView { last_stack_pointer: sp, ..o.tasks[tid.0] });
                assert(self@.tasks =~= t);
                let n = self@;
                assert forall|p: int, i: int| 0 <= p < NO_PRIORITIES && 0 <= i < n.ready[p].len() implies {
                    &&& n.has_status(#[trigger] n.ready[p][i], TaskStatus::Ready)
                    &&& n.tasks[n.ready[p][i]].prio == p
                } by {
                    assert(o.has_status(o.ready[p][i], TaskStatus::Ready));
                }
                assert forall|i: int| 0 <= i < n.finished.len() implies n.has_status(#[trigger] n.finished[i], TaskStatus::Invalid) by {
                    assert(o.has_status(o.finished[i], TaskStatus::Invalid));
                }
            } else {
                assert(self@.tasks =~= o.tasks);
            }
        }
    }
}

impl Scheduler {
    /// Picks the task that runs next: the front of the best non-empty ready
    /// queue within the search limit, which is marked running; the idle task
    /// if there is none and the current task cannot go on; `None` if the
    /// current task keeps the core.
    fn get_next_task(&mut self) -> (r: Option<usize>)
        requires
            old(self).wf(),
        ensures
            match best_level(old(self)@.ready, old(self)@.search_limit()) {
                Some(l) => {
                    &&& r == Some(old(self)@.ready[l][0])
                    &&& final(self)@ == (SchedulerView {
                        ready: old(self)@.ready.update(l, old(self)@.ready[l].drop_first()),
                        ..old(self)@
                    }).set_status(old(self)@.ready[l][0], TaskStatus::Running)
                },
                None => {
                    &&& final(self)@ == old(self)@
                    &&& r == if old(self)@.status(old(self)@.current) != TaskStatus::Running {
                        Some(old(self)@.idle)
                    } else {
                        None::<usize>
                    }
                },
            },
    {
        let ghost s0 = self@;
        let cur = self.current_tid;
        let status = self.status_of(cur);
        let lim: usize = if status == TaskStatus::Running {
            self.prio_of(cur) as usize + 1
        } else {
            NO_PRIORITIES
        };
        let mut i: usize = 0;
        while i < lim
            invariant
                self@ == s0,
                s0 == old(self)@,
                s0.inv(),
                lim == s0.search_limit(),
                lim <= NO_PRIORITIES,
                i <= lim,
                best_level(s0.ready, i as int) is None,
            decreases lim - i,
        {
            let popped = self.ready_queues[i].pop_front();
            match popped {
                Some(n) => {
                    proof {
                        lemma_best_level(s0.ready, i as int);
                        assert(best_level(s0.ready, i + 1) == Some(i as int));
                        lemma_best_level_stable(s0.ready, i + 1, lim as int);
                        assert(s0.has_status(s0.ready[i as int][0], TaskStatus::Ready));
                        assert(self@.ready =~= s0.ready.update(i as int, s0.ready[i as int].drop_first()));
                    }
                    self.set_task_status(n, TaskStatus::Running);
                    return Some(n);
                },
                None => {
                    proof {
                        assert(self@.ready =~= s0.ready);
                        assert(self@ =~= s0);
                    }
                },
            }
            i = i + 1;
        }
        if status != TaskStatus::Running {
            return Some(self.idle_tid);
        }
        None
    }

    /// Dispatch: binds the core to the task that runs next. When that is
    /// another task, the outgoing one is requeued if it could still run, or
    /// retired if it has finished (its control block stays registered,
    /// because the core still stands on its stack), and the returned switch
    /// tells the caller which contexts to exchange.
    pub fn schedule(&mut self) -> (r: Option<ContextSwitch>)
        requires
            old(self).wf(),
        ensures
            final(self).wf(),
            (final(self)@, r) == old(self)@.schedule(),
    {
        let ghost s0 = self@;
        proof {
            lemma_schedule_inv(s0);
            lemma_best_level(s0.ready, s0.search_limit());
        }
        let old_id = self.current_tid;
        let next = self.get_next_task();
        match next {
            Some(n) => {
                if n != old_id {
                    let ghost s1 = self@;
                    proof {
                        assert(s1.tasks.contains_key(n));
                        assert(s1.tasks.contains_key(old_id));
                        assert(s0.tasks[old_id].wf());
                    }
                    let new_stack_pointer = match self.tasks.get(&n) {
                        Some(task) => task.last_stack_pointer,
                        None => 0,
                    };
                    let status = self.status_of(old_id);
                    if status == TaskStatus::Running {
                        self.set_task_status(old_id, TaskStatus::Ready);
                        self.push_ready(old_id);
                    } else if status == TaskStatus::Finished {
                        self.set_task_status(old_id, TaskStatus::Invalid);
                        self.finished_tasks.push_back(old_id);
                    }
                    self.current_tid = n;
                    let r = Some(
                        ContextSwitch {
                            old_id: TaskId(old_id),
                            new_id: TaskId(n),
                            new_stack_pointer,
                        },
                    );
                    proof {
                        assert(self@ =~= s1.switch_to(n).0);
                    }
                    r
                } else {
                    None
                }
            },
            None => None,
        }
    }

    /// Releases the control block and stack of the oldest retired task, if
    /// there is one.
    pub fn cleanup_tasks(&mut self)
        requires
            old(self).wf(),
        ensures
            final(self).wf(),
            final(self)@ == old(self)@.cleanup(),
    {
        proof {
            lemma_cleanup_inv(old(self)@);
        }
        let popped = self.finished_tasks.pop_front();
        match popped {
            Some(id) => {
                let _released = self.tasks.remove(&id);
                proof {
                    assert(self@.tasks =~= old(self)@.cleanup().tasks);
                }
            },
            None => {},
        }
    }

    /// Gives up the core: reclaims at most one retired task, then
    /// dispatches.
    pub fn reschedule(&mut self) -> (r: Option<ContextSwitch>)
        requires
            old(self).wf(),
        ensures
            final(self).wf(),
            (final(self)@, r) == old(self)@.reschedule(),
    {
        self.cleanup_tasks();
        self.schedule()
    }

    /// Terminates the current task and reschedules. The idle task never
    /// terminates, and a task that was woken up is already queued again and
    /// has to be dispatched before it can terminate.
    pub fn exit(&mut self) -> (r: Option<ContextSwitch>)
        requires
            old(self).wf(),
            old(self)@.current != old(self)@.idle,
            old(self)@.status(old(self)@.current) != TaskStatus::Ready,
        ensures
            final(self).wf(),
            (final(self)@, r) == old(self)@.exit_current(),
    {
        let id = self.current_tid;
        self.set_task_status(id, TaskStatus::Finished);
        proof {
            lemma_finish_inv(old(self)@);
        }
        self.reschedule()
    }
}

} // verus!
