use task_scheduler::consts::{HIGH_PRIO, LOW_PRIO, NORMAL_PRIO, NO_PRIORITIES, STACK_MARKER, STACK_WORDS};
use task_scheduler::model::ContextSwitch;
use task_scheduler::scheduler::{Scheduler, SchedulerError};
use task_scheduler::task::{Priority, Task, TaskId, TaskStatus};

const ENTRY_A: u64 = 0x1000;
const ENTRY_B: u64 = 0x2000;
const ENTRY_C: u64 = 0x3000;

fn started() -> Scheduler {
    let mut s = Scheduler::new();
    s.add_idle_task();
    s
}

fn switched_to(r: Option<ContextSwitch>) -> usize {
    r.expect("a context switch").new_id.0
}

#[test]
fn init_creates_idle_task() {
    let s = started();
    assert_eq!(s.get_idle_taskid(), TaskId(0));
    assert_eq!(s.get_current_taskid(), TaskId(0));
    assert_eq!(s.get_status(TaskId(0)), Some(TaskStatus::Idle));
    assert_eq!(s.get_priority(TaskId(0)), Priority(LOW_PRIO));
}

#[test]
fn spawn_run_exit_and_reclaim() {
    let mut s = started();
    let id = s.spawn(ENTRY_A, Priority(NORMAL_PRIO)).unwrap();
    assert_eq!(id, TaskId(1));
    assert_eq!(s.get_status(id), Some(TaskStatus::Ready));

    let sw = s.reschedule();
    assert_eq!(
        sw,
        Some(ContextSwitch { old_id: TaskId(0), new_id: TaskId(1), new_stack_pointer: (STACK_WORDS - 8) as u64 })
    );
    assert_eq!(s.get_current_taskid(), TaskId(1));
    assert_eq!(s.get_status(id), Some(TaskStatus::Running));
    assert_eq!(s.get_status(TaskId(0)), Some(TaskStatus::Idle));

    let sw = s.exit();
    assert_eq!(sw.unwrap().old_id, TaskId(1));
    assert_eq!(sw.unwrap().new_id, TaskId(0));
    assert_eq!(s.get_current_taskid(), TaskId(0));
    // still registered: the core was standing on its stack during the switch
    assert_eq!(s.get_status(id), Some(TaskStatus::Invalid));

    let sw = s.reschedule();
    assert_eq!(sw, None);
    assert_eq!(s.get_status(id), None);
}

#[test]
fn equal_priority_round_robin() {
    let mut s = started();
    let a = s.spawn(ENTRY_A, Priority(NORMAL_PRIO)).unwrap().0;
    let b = s.spawn(ENTRY_B, Priority(NORMAL_PRIO)).unwrap().0;
    let c = s.spawn(ENTRY_C, Priority(NORMAL_PRIO)).unwrap().0;
    let mut order = Vec::new();
    for _ in 0..7 {
        order.push(switched_to(s.reschedule()));
    }
    assert_eq!(order, vec![a, b, c, a, b, c, a]);
    assert_eq!(s.get_status(TaskId(a)), Some(TaskStatus::Running));
    assert_eq!(s.get_status(TaskId(b)), Some(TaskStatus::Ready));
}

#[test]
fn higher_priority_runs_first() {
    let mut s = started();
    let low = s.spawn(ENTRY_A, Priority(NORMAL_PRIO)).unwrap();
    let high = s.spawn(ENTRY_B, Priority(HIGH_PRIO)).unwrap();
    assert_eq!(switched_to(s.reschedule()), high.0);
    // the high task keeps the core while it runs: nothing at its level waits
    assert_eq!(s.reschedule(), None);
    assert_eq!(s.get_current_taskid(), high);
    assert_eq!(s.get_status(low), Some(TaskStatus::Ready));
}

#[test]
fn higher_priority_spawn_preempts_running_task() {
    let mut s = started();
    let n1 = s.spawn(ENTRY_A, Priority(NORMAL_PRIO)).unwrap();
    let n2 = s.spawn(ENTRY_B, Priority(NORMAL_PRIO)).unwrap();
    assert_eq!(switched_to(s.reschedule()), n1.0);
    let high = s.spawn(ENTRY_C, Priority(HIGH_PRIO)).unwrap();
    let sw = s.reschedule().unwrap();
    assert_eq!(sw.old_id, n1);
    assert_eq!(sw.new_id, high);
    assert_eq!(s.get_status(n1), Some(TaskStatus::Ready));
    assert_eq!(s.get_status(n2), Some(TaskStatus::Ready));
    assert_eq!(s.get_status(high), Some(TaskStatus::Running));
}

#[test]
fn lower_priority_does_not_preempt() {
    let mut s = started();
    let high = s.spawn(ENTRY_A, Priority(HIGH_PRIO)).unwrap();
    assert_eq!(switched_to(s.reschedule()), high.0);
    let low = s.spawn(ENTRY_B, Priority(NORMAL_PRIO)).unwrap();
    assert_eq!(s.reschedule(), None);
    assert_eq!(s.get_current_taskid(), high);
    assert_eq!(s.get_status(low), Some(TaskStatus::Ready));
}

#[test]
fn block_and_wakeup() {
    let mut s = started();
    let t = s.spawn(ENTRY_A, Priority(NORMAL_PRIO)).unwrap();
    assert_eq!(switched_to(s.reschedule()), t.0);
    let handle = s.block_current_task();
    assert_eq!(handle, t);
    assert_eq!(s.get_status(t), Some(TaskStatus::Blocked));
    let sw = s.reschedule().unwrap();
    assert_eq!(sw.new_id, TaskId(0));
    assert_eq!(s.get_status(t), Some(TaskStatus::Blocked));

    s.wakeup_task(handle);
    assert_eq!(s.get_status(t), Some(TaskStatus::Ready));
    assert_eq!(switched_to(s.reschedule()), t.0);
}

#[test]
fn wakeup_of_task_not_blocked_has_no_effect() {
    let mut s = started();
    let a = s.spawn(ENTRY_A, Priority(NORMAL_PRIO)).unwrap();
    let b = s.spawn(ENTRY_B, Priority(NORMAL_PRIO)).unwrap();
    assert_eq!(switched_to(s.reschedule()), a.0);
    // running, ready, idle and unknown tasks are all left alone
    s.wakeup_task(a);
    s.wakeup_task(b);
    s.wakeup_task(TaskId(0));
    s.wakeup_task(TaskId(77));
    assert_eq!(s.get_status(a), Some(TaskStatus::Running));
    assert_eq!(s.get_status(b), Some(TaskStatus::Ready));
    assert_eq!(s.get_status(TaskId(0)), Some(TaskStatus::Idle));
    assert_eq!(s.get_status(TaskId(77)), None);
    // b is queued once only
    assert_eq!(switched_to(s.reschedule()), b.0);
    assert_eq!(switched_to(s.reschedule()), a.0);
    assert_eq!(switched_to(s.reschedule()), b.0);
}

#[test]
fn waking_twice_is_waking_once() {
    let mut s = started();
    let a = s.spawn(ENTRY_A, Priority(NORMAL_PRIO)).unwrap();
    let b = s.spawn(ENTRY_B, Priority(NORMAL_PRIO)).unwrap();
    assert_eq!(switched_to(s.reschedule()), a.0);
    let h = s.block_current_task();
    assert_eq!(switched_to(s.reschedule()), b.0);
    s.wakeup_task(h);
    s.wakeup_task(h);
    assert_eq!(switched_to(s.reschedule()), a.0);
    assert_eq!(switched_to(s.reschedule()), b.0);
    assert_eq!(switched_to(s.reschedule()), a.0);
}

#[test]
fn spawn_rejects_invalid_priority() {
    let mut s = started();
    assert_eq!(s.spawn(ENTRY_A, Priority(NO_PRIORITIES as u8)), Err(SchedulerError::InvalidPriority));
    assert_eq!(s.spawn(ENTRY_A, Priority(255)), Err(SchedulerError::InvalidPriority));
    assert_eq!(s.get_status(TaskId(1)), None);
    assert_eq!(s.spawn(ENTRY_A, Priority(LOW_PRIO)), Ok(TaskId(1)));
}

#[test]
fn spawn_reuses_retired_task() {
    let mut s = started();
    let t = s.spawn(ENTRY_A, Priority(NORMAL_PRIO)).unwrap();
    assert_eq!(switched_to(s.reschedule()), t.0);
    s.save_stack_pointer(t, 123);
    let sw = s.exit().unwrap();
    assert_eq!(sw.new_id, TaskId(0));
    assert_eq!(s.get_status(t), Some(TaskStatus::Invalid));

    let again = s.spawn(ENTRY_B, Priority(HIGH_PRIO)).unwrap();
    assert_eq!(again, t);
    let task = s.get_task(t).unwrap();
    assert_eq!(task.status(), TaskStatus::Ready);
    assert_eq!(task.prio(), Priority(HIGH_PRIO));
    assert_eq!(task.last_stack_pointer(), (STACK_WORDS - 8) as u64);
    assert_eq!(task.stack()[STACK_WORDS - 2], ENTRY_B);
    assert_eq!(task.stack()[STACK_WORDS - 1], STACK_MARKER);

    // the slot is no longer pending reclamation
    assert_eq!(switched_to(s.reschedule()), t.0);
    assert_eq!(s.get_status(t), Some(TaskStatus::Running));
    let fresh = s.spawn(ENTRY_C, Priority(NORMAL_PRIO)).unwrap();
    assert_eq!(fresh, TaskId(2));
}

#[test]
fn saved_stack_pointer_is_resumed() {
    let mut s = started();
    let a = s.spawn(ENTRY_A, Priority(NORMAL_PRIO)).unwrap();
    let b = s.spawn(ENTRY_B, Priority(NORMAL_PRIO)).unwrap();
    let sw = s.reschedule().unwrap();
    s.save_stack_pointer(sw.old_id, 40);
    let sw = s.reschedule().unwrap();
    assert_eq!(sw.new_id, b);
    s.save_stack_pointer(sw.old_id, 500);
    let sw = s.reschedule().unwrap();
    assert_eq!(sw.new_id, a);
    assert_eq!(sw.new_stack_pointer, 500);
}

#[test]
fn priority_lookup_defaults_to_normal() {
    let mut s = started();
    let t = s.spawn(ENTRY_A, Priority(HIGH_PRIO)).unwrap();
    assert_eq!(s.get_priority(t), Priority(HIGH_PRIO));
    assert_eq!(s.get_priority(TaskId(99)), Priority(NORMAL_PRIO));
}

#[test]
fn finished_task_reclaimed_one_per_reschedule() {
    let mut s = started();
    let a = s.spawn(ENTRY_A, Priority(NORMAL_PRIO)).unwrap();
    let b = s.spawn(ENTRY_B, Priority(NORMAL_PRIO)).unwrap();
    assert_eq!(switched_to(s.reschedule()), a.0);
    assert_eq!(switched_to(s.exit()), b.0);
    assert_eq!(s.get_status(a), Some(TaskStatus::Invalid));
    // the exit of b reschedules, which reclaims a but not b itself
    assert_eq!(switched_to(s.exit()), 0);
    assert_eq!(s.get_status(a), None);
    assert_eq!(s.get_status(b), Some(TaskStatus::Invalid));
    assert_eq!(s.reschedule(), None);
    assert_eq!(s.get_status(b), None);
    assert_eq!(s.reschedule(), None);
}

#[test]
fn stack_frame_layout() {
    let mut t = Task::new(TaskId(5), TaskStatus::Ready, Priority(NORMAL_PRIO));
    assert_eq!(t.stack().len(), STACK_WORDS);
    assert_eq!(t.last_stack_pointer(), 0);
    t.create_stack_frame(0xABCD);
    assert_eq!(t.last_stack_pointer(), (STACK_WORDS - 8) as u64);
    let st = t.stack();
    for i in STACK_WORDS - 8..STACK_WORDS - 2 {
        assert_eq!(st[i], 0);
    }
    assert_eq!(st[STACK_WORDS - 2], 0xABCD);
    assert_eq!(st[STACK_WORDS - 1], STACK_MARKER);
    assert_eq!(t.id(), TaskId(5));
}

#[test]
fn cleanup_releases_oldest_retired_task_only() {
    let mut s = started();
    let a = s.spawn(ENTRY_A, Priority(NORMAL_PRIO)).unwrap();
    s.cleanup_tasks();
    assert_eq!(s.get_status(a), Some(TaskStatus::Ready));
    assert_eq!(switched_to(s.reschedule()), a.0);
    assert_eq!(switched_to(s.exit()), 0);
    assert_eq!(s.get_status(a), Some(TaskStatus::Invalid));
    s.cleanup_tasks();
    assert_eq!(s.get_status(a), None);
    assert_eq!(s.get_status(TaskId(0)), Some(TaskStatus::Idle));
    assert_eq!(s.get_current_taskid(), TaskId(0));
}
