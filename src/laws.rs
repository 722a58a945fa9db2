//! Properties that hold of every reachable state and every operation.
use vstd::prelude::*;

use crate::consts::{FRAME_WORDS, NO_PRIORITIES, STACK_WORDS};
use crate::model::{
    best_level, initial_frame_at_top, lemma_best_level, lemma_cleanup_inv, lemma_schedule_inv,
    SchedulerView,
};
use crate::task::{initial_frame, initial_stack_pointer, TaskStatus};

verus! {

/// Registered tasks carry pairwise distinct ids.
pub proof fn lemma_task_ids_distinct(s: SchedulerView, a: usize, b: usize)
    requires
        s.inv(),
        s.tasks.contains_key(a),
        s.tasks.contains_key(b),
        a != b,
    ensures
        s.tasks[a].id != s.tasks[b].id,
{
}

/// At most one task is running, and it is the current one.
pub proof fn lemma_at_most_one_running(s: SchedulerView, a: usize, b: usize)
    requires
        s.inv(),
        s.has_status(a, TaskStatus::Running),
        s.has_status(b, TaskStatus::Running),
    ensures
        a == b,
        a == s.current,
{
}

/// The idle task is never finished, and no operation makes it so.
pub proof fn lemma_idle_never_finished(s: SchedulerView)
    requires
        s.inv(),
    ensures
        s.status(s.idle) == TaskStatus::Idle,
        s.status(s.idle) != TaskStatus::Finished,
{
}

/// Round robin within a level: when the running task yields and the best
/// waiting task shares its level, the front of that queue runs next and the
/// yielding task joins the back of the queue.
pub proof fn lemma_round_robin(s: SchedulerView)
    requires
        s.inv(),
        s.status(s.current) == TaskStatus::Running,
        s.ready[s.tasks[s.current].prio as int].len() > 0,
        forall|j: int| 0 <= j < s.tasks[s.current].prio ==> #[trigger] s.ready[j].len() == 0,
    ensures
        ({
            let p = s.tasks[s.current].prio as int;
            let t = s.schedule().0;
            &&& t.current == s.ready[p][0]
            &&& t.status(t.current) == TaskStatus::Running
            &&& t.ready[p] == s.ready[p].drop_first().push(s.current)
            &&& t.status(s.current) == TaskStatus::Ready
        }),
{
    let p = s.tasks[s.current].prio as int;
    lemma_best_level(s.ready, s.search_limit());
    assert(best_level(s.ready, s.search_limit()) == Some(p));
    assert(s.has_status(s.ready[p][0], TaskStatus::Ready));
    let t = s.schedule().0;
    assert(t.ready[p] =~= s.ready[p].drop_first().push(s.current));
}

/// The state after `k` reschedules in a row.
pub open spec fn reschedule_times(s: SchedulerView, k: nat) -> SchedulerView
    decreases k,
{
    if k == 0 {
        s
    } else {
        reschedule_times(s, (k - 1) as nat).reschedule().0
    }
}

/// What holds after `k` reschedules of a round robin at level `p` over the
/// tasks `cyc`: the task at position `k - 1` (cyclically) runs and the
/// others wait in the order in which they come next.
pub open spec fn round_robin_at(t: SchedulerView, cyc: Seq<usize>, p: int, k: nat) -> bool {
    let n = cyc.len() as int;
    &&& t.inv()
    &&& t.finished.len() == 0
    &&& t.status(t.current) == TaskStatus::Running
    &&& t.tasks[t.current].prio == p
    &&& forall|j: int| 0 <= j < p ==> #[trigger] t.ready[j].len() == 0
    &&& t.current == cyc[(k + n - 1) % n]
    &&& t.ready[p] == Seq::new((n - 1) as nat, |i: int| cyc[(k + i) % n])
}

/// Round robin over any number of reschedules: while no task blocks,
/// exits or is added, and no better level has a ready task, the running
/// task and those queued at its level take turns in queue order, the
/// running task last: after `k` reschedules the task at position `k - 1`
/// of that cycle runs (A, B, C, A, B, C, ...).
pub proof fn lemma_round_robin_cycle(s: SchedulerView, k: nat)
    requires
        s.inv(),
        s.status(s.current) == TaskStatus::Running,
        s.finished.len() == 0,
        forall|j: int| 0 <= j < s.tasks[s.current].prio ==> #[trigger] s.ready[j].len() == 0,
    ensures
        ({
            let cyc = s.ready[s.tasks[s.current].prio as int].push(s.current);
            let t = reschedule_times(s, k);
            &&& t.current == cyc[(k + cyc.len() - 1) % (cyc.len() as int)]
            &&& t.status(t.current) == TaskStatus::Running
        }),
{
    let p = s.tasks[s.current].prio as int;
    let cyc = s.ready[p].push(s.current);
    lemma_round_robin_steps(s, cyc, p, k);
}

proof fn lemma_round_robin_steps(s: SchedulerView, cyc: Seq<usize>, p: int, k: nat)
    requires
        s.inv(),
        s.status(s.current) == TaskStatus::Running,
        s.finished.len() == 0,
        p == s.tasks[s.current].prio,
        cyc == s.ready[p].push(s.current),
        forall|j: int| 0 <= j < p ==> #[trigger] s.ready[j].len() == 0,
    ensures
        round_robin_at(reschedule_times(s, k), cyc, p, k),
    decreases k,
{
    let n = cyc.len() as int;
    if k == 0 {
        vstd::arithmetic::div_mod::lemma_small_mod((n - 1) as nat, n as nat);
        assert forall|i: int| 0 <= i < n - 1 implies #[trigger] s.ready[p][i] == cyc[(i) % n] by {
            vstd::arithmetic::div_mod::lemma_small_mod(i as nat, n as nat);
        }
        assert(s.ready[p] =~= Seq::new((n - 1) as nat, |i: int| cyc[(0 + i) % n]));
    } else {
        lemma_round_robin_steps(s, cyc, p, (k - 1) as nat);
        let t = reschedule_times(s, (k - 1) as nat);
        assert(t.cleanup() == t);
        lemma_schedule_inv(t);
        let u = t.schedule().0;
        lemma_best_level(t.ready, t.search_limit());
        if n == 1 {
            assert(t.ready[p].len() == 0);
            assert(best_level(t.ready, t.search_limit()) is None);
            vstd::arithmetic::div_mod::lemma_small_mod(0, 1);
            assert((k + n - 1) % n == 0) by (nonlinear_arith)
                requires n == 1;
            assert((k - 1 + n - 1) % n == 0) by (nonlinear_arith)
                requires n == 1, k >= 1;
            assert(u.ready[p] =~= Seq::new((n - 1) as nat, |i: int| cyc[(k + i) % n]));
        } else {
            lemma_round_robin(t);
            let q = t.ready[p];
            assert(t.has_status(q[0], TaskStatus::Ready));
            assert(best_level(t.ready, t.search_limit()) == Some(p));
            assert forall|j: int| 0 <= j < p implies #[trigger] u.ready[j].len() == 0 by {
                assert(u.ready[j] == t.ready[j]);
            }
            vstd::arithmetic::div_mod::lemma_mod_add_multiples_vanish((k - 1) as int, n);
            assert(u.current == cyc[(k + n - 1) % n]);
            assert forall|i: int| 0 <= i < n - 1 implies #[trigger] u.ready[p][i] == cyc[(k + i) % n] by {
                if i < n - 2 {
                    assert(u.ready[p][i] == q[i + 1]);
                    assert((k - 1) + (i + 1) == k + i);
                } else {
                    assert(u.ready[p][i] == t.current);
                    assert((k - 1) + n - 1 == k + i);
                }
            }
            assert(u.ready[p] =~= Seq::new((n - 1) as nat, |i: int| cyc[(k + i) % n]));
        }
    }
}

/// Strict level precedence: a task taken from a ready queue is at a level
/// no worse than that of any other ready task; and the running task keeps
/// the core only while every ready task is at a strictly worse level.
pub proof fn lemma_priority_precedence(s: SchedulerView, k: usize)
    requires
        s.inv(),
        s.has_status(k, TaskStatus::Ready),
    ensures
        ({
            let (t, sw) = s.schedule();
            &&& s.has_status(t.current, TaskStatus::Ready) ==> s.tasks[t.current].prio <= s.tasks[k].prio
            &&& sw is None && t.current == s.current && s.status(s.current) == TaskStatus::Running
                ==> s.tasks[s.current].prio < s.tasks[k].prio
        }),
{
    let p = s.tasks[k].prio as int;
    assert(s.ready[p].contains(k));
    lemma_best_level(s.ready, s.search_limit());
    lemma_schedule_inv(s);
    match best_level(s.ready, s.search_limit()) {
        Some(l) => {
            let n = s.ready[l][0];
            assert(s.has_status(n, TaskStatus::Ready));
            assert(s.tasks[n].prio == l);
            if p < l {
                assert(s.ready[p].len() == 0);
            }
        },
        None => {
            if s.status(s.current) == TaskStatus::Running && p <= s.tasks[s.current].prio {
                assert(s.ready[p].len() == 0);
            }
        },
    }
}

/// A finished task is not reclaimed by the reschedule that switches away
/// from it: afterwards it is still registered, retired, and waiting in the
/// finished queue for a later reschedule to release it.
pub proof fn lemma_no_premature_reclamation(s: SchedulerView)
    requires
        s.inv(),
        s.status(s.current) == TaskStatus::Finished,
    ensures
        s.cleanup().tasks.contains_key(s.current),
        ({
            let t = s.reschedule().0;
            &&& t.current != s.current
            &&& t.has_status(s.current, TaskStatus::Invalid)
            &&& t.finished.last() == s.current
        }),
{
    lemma_cleanup_inv(s);
    let c = s.cleanup();
    lemma_best_level(c.ready, c.search_limit());
    match best_level(c.ready, c.search_limit()) {
        Some(l) => {
            assert(c.has_status(c.ready[l][0], TaskStatus::Ready));
        },
        None => {},
    }
}

/// Reclamation releases only a task that was retired by an earlier
/// dispatch, never the task the core stands on.
pub proof fn lemma_cleanup_frees_only_retired(s: SchedulerView, k: usize)
    requires
        s.inv(),
        s.tasks.contains_key(k),
        !s.cleanup().tasks.contains_key(k),
    ensures
        s.status(k) == TaskStatus::Invalid,
        k != s.current,
        k == s.finished[0],
{
    assert(s.has_status(s.finished[0], TaskStatus::Invalid));
}

/// Reusing a retired control block resets its status, level and saved
/// context exactly as for a newly created task.
pub proof fn lemma_reuse_resets(s: SchedulerView, prio: u8, entry: u64)
    requires
        s.inv(),
        s.finished.len() > 0,
        (prio as int) < NO_PRIORITIES,
    ensures
        ({
            let id = s.finished[0];
            let t = s.reuse_slot(prio, entry).tasks[id];
            &&& t.status == TaskStatus::Ready
            &&& t.prio == prio
            &&& t.last_stack_pointer == initial_stack_pointer()
            &&& initial_frame_at_top(t.stack, entry)
            &&& s.reuse_slot(prio, entry).ready[prio as int].last() == id
        }),
{
    let id = s.finished[0];
    assert(s.has_status(id, TaskStatus::Invalid));
    let t = s.reuse_slot(prio, entry).tasks[id];
    assert(t.stack.subrange(STACK_WORDS - FRAME_WORDS, STACK_WORDS as int) =~= initial_frame(entry));
}

/// Waking a task that is not blocked changes nothing, so waking twice is
/// the same as waking once.
pub proof fn lemma_wakeup_idempotent(s: SchedulerView, k: usize)
    requires
        s.inv(),
    ensures
        !s.has_status(k, TaskStatus::Blocked) ==> s.wakeup(k) == s,
        s.wakeup(k).wakeup(k) == s.wakeup(k),
{
}

} // verus!
