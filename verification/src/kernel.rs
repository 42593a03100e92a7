//! Scheduler control: starting and stopping, suspending, the tick, and the
//! choice of the next task to run.
use vstd::prelude::*;
use crate::config::{TickType, UBaseType, configMAX_PRIORITIES, portMAX_DELAY};
use crate::list::{
    cursor_after_remove, cursor_after_remove_all, lemma_remove_all_contains, lemma_remove_all_cursor,
    lemma_remove_all_none, lemma_remove_all_step, position_in, remove_all, sorted_values, ItemHandle, ListHandle, ListStore, current_list_length, get_list_item_container, get_list_item_value,
    get_owner_of_head_entry, get_owner_of_next_entry, list_is_empty, list_remove,
};
use crate::task_global::{Kernel, lemma_items_kept, lemma_same_structure, lemma_store_step, lemma_tasks_kept};
use crate::tasks::{TaskControlBlock, TaskHandle, head_wake_time, max_prio, reset_next_task_unblock_time};
use crate::config::FreeRtosError;

verus! {

/// What `task_get_scheduler_state` reports.
#[derive(Clone, Copy, Debug, PartialEq, Eq, Structural)]
pub enum SchedulerState {
    NotStarted,
    Suspended,
    Running,
}

/// `k1` is `k0` with other counters; the store, the lists, the tasks, the
/// running task and the top ready priority are the same.
pub open spec fn same_structure(k0: &Kernel, k1: &Kernel) -> bool {
    &&& k1.store == k0.store
    &&& k1.tasks == k0.tasks
    &&& k1.ready_task_lists == k0.ready_task_lists
    &&& k1.delayed_task_list == k0.delayed_task_list
    &&& k1.overflow_delayed_task_list == k0.overflow_delayed_task_list
    &&& k1.pending_ready_list == k0.pending_ready_list
    &&& k1.tasks_waiting_termination == k0.tasks_waiting_termination
    &&& k1.suspended_task_list == k0.suspended_task_list
    &&& k1.current_tcb == k0.current_tcb
    &&& k1.top_ready_priority == k0.top_ready_priority
}

/// A change of counters only keeps the scheduler consistent.
proof fn lemma_counters_only(k0: &Kernel, k1: &Kernel)
    requires
        k0.wf(),
        same_structure(k0, k1),
        k1.current_number_of_tasks <= k0.current_number_of_tasks || k1.current_tcb is Some,
    ensures
        k1.wf(),
{
    lemma_same_structure(k0, k1, -1);
}

/// The scheduler's state: not started, suspended, or running.
pub fn task_get_scheduler_state(k: &Kernel) -> (r: SchedulerState)
    ensures
        r == (if !k.scheduler_running {
            SchedulerState::NotStarted
        } else if k.scheduler_suspended == 0 {
            SchedulerState::Running
        } else {
            SchedulerState::Suspended
        }),
{
    if !k.scheduler_running {
        SchedulerState::NotStarted
    } else {
        if k.scheduler_suspended == 0 {
            SchedulerState::Running
        } else {
            SchedulerState::Suspended
        }
    }
}

/// Suspends the scheduler once more; calls nest.
pub fn task_suspend_all(k: &mut Kernel)
    requires
        old(k).scheduler_suspended < UBaseType::MAX,
    ensures
        *final(k) == (Kernel { scheduler_suspended: (old(k).scheduler_suspended + 1) as UBaseType, ..*old(k) }),
        old(k).wf() ==> final(k).wf(),
{
    let ghost k0 = *old(k);
    k.scheduler_suspended = k.scheduler_suspended + 1;
    proof {
        if k0.wf() {
            lemma_counters_only(&k0, k);
        }
    }
}

/// Marks the scheduler stopped.  The port then stops the tick.
pub fn task_end_scheduler(k: &mut Kernel)
    ensures
        *final(k) == (Kernel { scheduler_running: false, ..*old(k) }),
        old(k).wf() ==> final(k).wf(),
{
    let ghost k0 = *old(k);
    k.scheduler_running = false;
    proof {
        if k0.wf() {
            lemma_counters_only(&k0, k);
        }
    }
}

/// Sets up the scheduler before the port starts the tick: no unblocking
/// due, running, tick count zero.
pub(crate) fn initialize_scheduler(k: &mut Kernel)
    ensures
        *final(k) == (Kernel {
            next_task_unblock_time: portMAX_DELAY,
            scheduler_running: true,
            tick_count: 0,
            ..*old(k)
        }),
{
    k.next_task_unblock_time = portMAX_DELAY;
    k.scheduler_running = true;
    k.tick_count = 0;
}

/// Advances the tick count by `ticks_to_jump` after a tickless idle
/// period, which must not pass the next unblocking.
pub fn task_step_tick(k: &mut Kernel, ticks_to_jump: TickType)
    requires
        old(k).tick_count + ticks_to_jump <= old(k).next_task_unblock_time,
    ensures
        *final(k) == (Kernel { tick_count: (old(k).tick_count + ticks_to_jump) as TickType, ..*old(k) }),
{
    let cur_tick_count = k.tick_count;
    k.tick_count = cur_tick_count + ticks_to_jump;
}

/// Run-time accounting at a context switch.  The port gives no run-time
/// counter here, so the total run time reads zero: it and the switch-in
/// time are set to zero and no task is charged.
pub(crate) fn generate_context_switch_stats(k: &mut Kernel)
    requires
        old(k).current_tcb matches Some(c) ==> c < old(k).tasks@.len(),
    ensures
        *final(k) == (Kernel { total_run_time: 0, task_switched_in_time: 0, ..*old(k) }),
{
    let total_run_time: u32 = 0;
    k.total_run_time = total_run_time;
    let task_switched_in_time = k.task_switched_in_time;
    if total_run_time > task_switched_in_time {
        if let Some(c) = k.current_tcb {
            let old_run_time = k.tasks[c].runtime_counter;
            k.tasks[c].runtime_counter = old_run_time.wrapping_add(total_run_time - task_switched_in_time);
        }
    }
    k.task_switched_in_time = total_run_time;
}

/// Some ready list of priority at most the top ready priority holds a task.
pub open spec fn some_ready(k: &Kernel) -> bool {
    exists|p: int| 0 <= p <= k.top_ready_priority && #[trigger] k.store.seq(k.ready(p) as int).len() > 0
}

/// The highest priority at most `p` whose ready list holds a task (-1 when
/// none does).
pub open spec fn highest_ready(k: &Kernel, p: int) -> int
    decreases p + 1,
{
    if p < 0 {
        -1
    } else if k.store.seq(k.ready(p) as int).len() > 0 {
        p
    } else {
        highest_ready(k, p - 1)
    }
}

proof fn lemma_highest_ready(k: &Kernel, p: int)
    requires
        exists|q: int| 0 <= q <= p && #[trigger] k.store.seq(k.ready(q) as int).len() > 0,
    ensures
        0 <= highest_ready(k, p) <= p,
        k.store.seq(k.ready(highest_ready(k, p)) as int).len() > 0,
        forall|q: int| highest_ready(k, p) < q <= p ==> #[trigger] k.store.seq(k.ready(q) as int).len() == 0,
    decreases p + 1,
{
    if k.store.seq(k.ready(p) as int).len() == 0 {
        let q = choose|q: int| 0 <= q <= p && #[trigger] k.store.seq(k.ready(q) as int).len() > 0;
        assert(q != p);
        assert(0 <= q <= p - 1 && k.store.seq(k.ready(q) as int).len() > 0);
        lemma_highest_ready(k, p - 1);
    }
}

/// The task the cursor of ready list `l` moves to next.
pub open spec fn next_in_turn(k: &Kernel, l: int) -> int {
    let n = k.store.seq(l).len() as int;
    k.owner_of(k.store.seq(l)[ListStore::next_cursor(k.store.cursor(l), n)] as int)
}

/// Makes the next task, in turn, of the highest non-empty ready list the
/// running task; that priority becomes the top ready priority.
pub(crate) fn task_select_highest_priority_task(k: &mut Kernel)
    requires
        old(k).wf(),
        some_ready(old(k)),
    ensures
        final(k).wf(),
        ({
            let p = highest_ready(old(k), old(k).top_ready_priority as int);
            let l = old(k).ready(p) as int;
            let n = old(k).store.seq(l).len() as int;
            &&& final(k).top_ready_priority == p
            &&& final(k).current_tcb == Some(next_in_turn(old(k), l) as usize)
            &&& final(k).store.cursor(l) == ListStore::next_cursor(old(k).store.cursor(l), n)
            &&& final(k).store.seq(l) == old(k).store.seq(l)
            &&& final(k).store.frame(&old(k).store, l, -1)
        }),
        *final(k) == (Kernel {
            store: final(k).store,
            current_tcb: final(k).current_tcb,
            top_ready_priority: final(k).top_ready_priority,
            ..*old(k)
        }),
{
    let ghost k0 = *old(k);
    let mut top_priority: UBaseType = k.top_ready_priority;
    proof {
        lemma_highest_ready(&k0, k0.top_ready_priority as int);
    }
    while list_is_empty(&k.store, k.ready_task_lists[top_priority as usize])
        invariant
            *k == k0,
            k0.wf(),
            top_priority <= k0.top_ready_priority,
            highest_ready(&k0, k0.top_ready_priority as int) <= top_priority,
            highest_ready(&k0, k0.top_ready_priority as int) == highest_ready(&k0, top_priority as int),
            0 <= highest_ready(&k0, k0.top_ready_priority as int),
            k0.store.seq(k0.ready(highest_ready(&k0, k0.top_ready_priority as int)) as int).len() > 0,
        decreases top_priority,
    {
        proof {
            assert(k0.ready(top_priority as int) < k0.store.num_lists());
        }
        top_priority = top_priority - 1;
    }
    let l = k.ready_task_lists[top_priority as usize];
    let ghost n = k0.store.seq(l as int).len() as int;
    proof {
        assert(highest_ready(&k0, top_priority as int) == top_priority);
        k0.store.lemma_wf();
        let c2 = ListStore::next_cursor(k0.store.cursor(l as int), n);
        assert(0 <= c2 < n);
        let x = k0.store.seq(l as int)[c2] as int;
        assert(!k0.store.is_end(x));
        assert(k0.store.owner(x) is Some);
    }
    let next_task = get_owner_of_next_entry(&mut k.store, l);
    let ghost k1 = *k;
    k.current_tcb = Some(next_task);
    k.top_ready_priority = top_priority;
    proof {
        let k2 = *k;
        let c2 = ListStore::next_cursor(k0.store.cursor(l as int), n);
        let x = k0.store.seq(l as int)[c2] as int;
        assert(0 <= x < k0.store.num_items());
        assert(!k0.store.is_end(x));
        assert(k0.items_ok());
        assert(0 <= k0.owner_of(x) < k0.tasks@.len());
        assert(k2.store.wf());
        assert(k1.store.frame(&k0.store, l as int, -1));
        assert(k0.store.container(x) == Some(l));
        assert(k0.ready_task_lists@[top_priority as int] == l);
        assert(k0.is_state_list(l as int));
        assert(x == k0.st(k0.owner_of(x)));
        lemma_frame_keeps(&k0, &k2, l as int);
    }
}

/// A move of the cursor of list `l`, with another running task (in range)
/// and another top ready priority (in range), keeps the scheduler
/// consistent.
proof fn lemma_frame_keeps(k0: &Kernel, k1: &Kernel, l: int)
    requires
        k0.wf(),
        k1.store.wf(),
        k1.store.frame(&k0.store, l, -1),
        k1.store.seq(l) == k0.store.seq(l),
        k1 == (Kernel {
            store: k1.store,
            current_tcb: k1.current_tcb,
            top_ready_priority: k1.top_ready_priority,
            ..*k0
        }),
        k1.current_tcb matches Some(c) ==> c < k1.tasks@.len() && k0.store.container(k0.st(c as int) as int) is Some,
        k1.current_tcb is Some,
        k1.top_ready_priority < configMAX_PRIORITIES,
    ensures
        k1.wf(),
{
    let km = Kernel { store: k1.store, ..*k0 };
    assert forall|y: int| 0 <= y < km.store.num_items() implies #[trigger] km.store.container(y) == k0.store.container(y) by {}
    assert forall|p: int| #[trigger] km.ready(p) == k0.ready(p) by {}
    assert forall|t: int| #[trigger] km.st(t) == k0.st(t) && km.ev(t) == k0.ev(t) && km.prio(t) == k0.prio(t) by {}
    assert forall|ll: int| #[trigger] km.is_state_list(ll) == k0.is_state_list(ll) by {}
    assert forall|y: int| 0 <= y < km.store.num_items() implies #[trigger] km.owner_of(y) == k0.owner_of(y) by {
        assert(km.store.owner(y) == k0.store.owner(y));
    }
    assert(km.lists_ok());
    assert forall|y: int| 0 <= y < k0.store.num_items() implies #[trigger] km.store.owner(y) == k0.store.owner(y)
        && km.store.is_end(y) == k0.store.is_end(y) by {}
    lemma_tasks_kept(k0, &km);
    lemma_items_kept(k0, &km, -1);
    assert(km.alive_ok(-1)) by {
        assert forall|t: int| 0 <= t < km.tasks@.len() implies #[trigger] km.placed_ok(t, -1) by {
            assert(k0.st(t) < k0.store.num_items());
            assert(k0.placed_ok(t, -1));
            assert(km.store.container(km.st(t) as int) == k0.store.container(k0.st(t) as int));
            assert(km.store.container(km.ev(t) as int) == k0.store.container(k0.ev(t) as int));
        }
    }
    assert(km.inv(-1));
    lemma_same_structure(&km, k1, -1);
}

/// A context switch: with the scheduler suspended a yield is marked
/// pending; otherwise the pending yield is cleared, the run-time stats are
/// taken and the next task to run is chosen.
pub fn task_switch_context(k: &mut Kernel)
    requires
        old(k).wf(),
        old(k).scheduler_suspended == 0 ==> some_ready(old(k)),
    ensures
        final(k).wf(),
        old(k).scheduler_suspended > 0 ==> *final(k) == (Kernel { yield_pending: true, ..*old(k) }),
        old(k).scheduler_suspended == 0 ==> {
            let p = highest_ready(old(k), old(k).top_ready_priority as int);
            let l = old(k).ready(p) as int;
            let n = old(k).store.seq(l).len() as int;
            &&& final(k).top_ready_priority == p
            &&& final(k).current_tcb == Some(next_in_turn(old(k), l) as usize)
            &&& final(k).store.cursor(l) == ListStore::next_cursor(old(k).store.cursor(l), n)
            &&& final(k).store.seq(l) == old(k).store.seq(l)
            &&& final(k).store.frame(&old(k).store, l, -1)
            &&& *final(k) == (Kernel {
                store: final(k).store,
                current_tcb: final(k).current_tcb,
                top_ready_priority: final(k).top_ready_priority,
                yield_pending: false,
                total_run_time: 0,
                task_switched_in_time: 0,
                ..*old(k)
            })
        },
{
    let ghost k0 = *old(k);
    if k.scheduler_suspended > 0 {
        k.yield_pending = true;
        proof {
            lemma_counters_only(&k0, k);
        }
    } else {
        k.yield_pending = false;
        generate_context_switch_stats(k);
        proof {
            lemma_counters_only(&k0, k);
            let k1 = *k;
            assert(some_ready(&k1)) by {
                let p = choose|p: int| 0 <= p <= k0.top_ready_priority && #[trigger] k0.store.seq(k0.ready(p) as int).len() > 0;
                assert(k1.store.seq(k1.ready(p) as int).len() > 0);
            }
            assert forall|p: int| #[trigger] highest_ready(&k1, p) == highest_ready(&k0, p) by {
                lemma_highest_ready_same(&k0, &k1, p);
            }
        }
        task_select_highest_priority_task(k);
    }
}

proof fn lemma_highest_ready_same(k0: &Kernel, k1: &Kernel, p: int)
    requires
        k1.store == k0.store,
        k1.ready_task_lists == k0.ready_task_lists,
    ensures
        highest_ready(k1, p) == highest_ready(k0, p),
    decreases p + 1,
{
    if p >= 0 {
        lemma_highest_ready_same(k0, k1, p - 1);
    }
}


/// The scheduler right after a tick: the tick count one on (wrapping);
/// when it wraps to zero the delayed and the overflow delayed lists trade
/// places.
pub open spec fn ticked(k: Kernel) -> Kernel {
    let now = k.tick_count.wrapping_add(1);
    if now == 0 {
        Kernel {
            tick_count: now,
            delayed_task_list: k.overflow_delayed_task_list,
            overflow_delayed_task_list: k.delayed_task_list,
            ..k
        }
    } else {
        Kernel { tick_count: now, ..k }
    }
}

/// The number of leading items of `s` whose value is at most `now`.
pub open spec fn leading_due(store: &ListStore, s: Seq<ItemHandle>, now: TickType) -> nat
    decreases s.len(),
{
    if s.len() == 0 {
        0
    } else if now < store.value(s[0] as int) {
        0
    } else {
        1 + leading_due(store, s.drop_first(), now)
    }
}

/// The state items that a tick of `k` takes off the delayed list: when the
/// new tick count reaches the next unblocking, the leading items whose wake
/// time has come.
pub open spec fn woken(k: Kernel) -> Seq<ItemHandle> {
    let k1 = ticked(k);
    let d = k1.store.seq(k1.delayed_task_list as int);
    if k1.tick_count >= k.next_task_unblock_time {
        d.take(leading_due(&k1.store, d, k1.tick_count) as int)
    } else {
        Seq::empty()
    }
}

/// Where a list's cursor at `c` stands once its first `n` items left: `n`
/// places back, or at the end marker (-1) when its item left.
pub open spec fn cursor_after_drop(c: int, n: int) -> int {
    if c >= n {
        c - n
    } else {
        -1
    }
}

/// A list of `k` that is neither one of its ready lists nor list `skip`.
pub open spec fn other_list(k: &Kernel, l: int, skip: int) -> bool {
    &&& 0 <= l < k.store.num_lists()
    &&& !k.ready_task_lists@.contains(l as usize)
    &&& l != skip
}

/// The event items of the tasks that own an item of `moved`.
pub open spec fn woken_events(k: &Kernel, moved: Seq<ItemHandle>) -> Set<ItemHandle> {
    Set::new(|y: ItemHandle| exists|j: int| 0 <= j < moved.len() && y == k.ev(k.owner_of(#[trigger] moved[j] as int)))
}

/// Every list of `k1` but its ready lists and list `skip` holds in `k` what
/// it held in `k1` but the items of `gone`, and its cursor moved as the
/// removals move it.
pub open spec fn others_without(k1: &Kernel, k: &Kernel, gone: Set<ItemHandle>, skip: int) -> bool {
    forall|l: int|
        other_list(k1, l, skip) ==> #[trigger] k.store.seq(l) == remove_all(k1.store.seq(l), gone) && k.store.cursor(l)
            == cursor_after_remove_all(k1.store.seq(l), k1.store.cursor(l), gone)
}

/// Before any task wakes, the other lists are as they were.
proof fn lemma_others_start(k1: &Kernel, skip: int)
    requires
        k1.wf(),
    ensures
        others_without(k1, k1, Set::empty(), skip),
{
    k1.store.lemma_wf();
    assert forall|l: int| other_list(k1, l, skip) implies #[trigger] k1.store.seq(l) == remove_all(
        k1.store.seq(l),
        Set::empty(),
    ) && k1.store.cursor(l) == cursor_after_remove_all(k1.store.seq(l), k1.store.cursor(l), Set::empty()) by {
        lemma_remove_all_none(k1.store.seq(l), k1.store.cursor(l));
    }
}

/// A store step that touches only a ready list or the delayed list keeps
/// the other lists.
proof fn lemma_others_frame(k1: &Kernel, ka: &Kernel, kb: &Kernel, gone: Set<ItemHandle>, skip: int, l0: int, x: int)
    requires
        others_without(k1, ka, gone, skip),
        kb.store.frame(&ka.store, l0, x),
        ka.store.num_lists() == k1.store.num_lists(),
        !other_list(k1, l0, skip),
    ensures
        others_without(k1, kb, gone, skip),
{
    assert forall|l: int| other_list(k1, l, skip) implies #[trigger] kb.store.seq(l) == remove_all(k1.store.seq(l), gone)
        && kb.store.cursor(l) == cursor_after_remove_all(k1.store.seq(l), k1.store.cursor(l), gone) by {
        assert(l != l0);
        assert(kb.store.seq(l) == ka.store.seq(l));
    }
}

/// An event item in no list leaving changes no other list.
proof fn lemma_others_absent(k1: &Kernel, kb: &Kernel, gone: Set<ItemHandle>, skip: int, ev: ItemHandle)
    requires
        k1.wf(),
        kb.store.wf(),
        kb.store.num_lists() == k1.store.num_lists(),
        others_without(k1, kb, gone, skip),
        ev < kb.store.num_items(),
        kb.store.container(ev as int) is None,
    ensures
        others_without(k1, kb, gone.insert(ev), skip),
{
    k1.store.lemma_wf();
    kb.store.lemma_wf();
    assert forall|l: int| other_list(k1, l, skip) implies #[trigger] kb.store.seq(l) == remove_all(
        k1.store.seq(l),
        gone.insert(ev),
    ) && kb.store.cursor(l) == cursor_after_remove_all(k1.store.seq(l), k1.store.cursor(l), gone.insert(ev)) by {
        let s = k1.store.seq(l);
        if gone.contains(ev) {
            assert(gone.insert(ev) =~= gone);
        } else {
            lemma_remove_all_contains(s, gone);
            assert(!kb.store.seq(l).contains(ev)) by {
                if kb.store.seq(l).contains(ev) {
                    let j = choose|j: int| 0 <= j < kb.store.seq(l).len() && kb.store.seq(l)[j] == ev;
                    assert(kb.store.container(kb.store.seq(l)[j] as int) == Some(l as usize));
                }
            }
            assert(!remove_all(s, gone).contains(ev));
            assert(!s.contains(ev));
            lemma_remove_all_step(s, gone, ev);
            lemma_remove_all_cursor(s, gone, ev, k1.store.cursor(l));
        }
    }
}

/// An event item leaving its list `lev`, one of the other lists.
proof fn lemma_others_remove(
    k1: &Kernel,
    kb: &Kernel,
    kc: &Kernel,
    gone: Set<ItemHandle>,
    skip: int,
    ev: ItemHandle,
    lev: int,
)
    requires
        k1.wf(),
        kb.store.wf(),
        kb.store.num_lists() == k1.store.num_lists(),
        others_without(k1, kb, gone, skip),
        ev < kb.store.num_items(),
        kb.store.container(ev as int) == Some(lev as usize),
        other_list(k1, lev, skip),
        kc.store.frame(&kb.store, lev, ev as int),
        kc.store.seq(lev) == kb.store.seq(lev).remove(position_in(kb.store.seq(lev), ev)),
        kc.store.cursor(lev) == cursor_after_remove(kb.store.cursor(lev), position_in(kb.store.seq(lev), ev)),
    ensures
        others_without(k1, kc, gone.insert(ev), skip),
{
    k1.store.lemma_wf();
    kb.store.lemma_wf();
    assert(kb.store.seq(lev).contains(ev));
    assert forall|l: int| other_list(k1, l, skip) implies #[trigger] kc.store.seq(l) == remove_all(
        k1.store.seq(l),
        gone.insert(ev),
    ) && kc.store.cursor(l) == cursor_after_remove_all(k1.store.seq(l), k1.store.cursor(l), gone.insert(ev)) by {
        let s = k1.store.seq(l);
        lemma_remove_all_contains(s, gone);
        if l == lev {
            assert(remove_all(s, gone).contains(ev));
            assert(!gone.contains(ev));
            assert(s.contains(ev));
            lemma_remove_all_step(s, gone, ev);
            lemma_remove_all_cursor(s, gone, ev, k1.store.cursor(l));
        } else {
            assert(kc.store.seq(l) == kb.store.seq(l));
            if gone.contains(ev) {
                assert(gone.insert(ev) =~= gone);
            } else {
                assert(!kb.store.seq(l).contains(ev)) by {
                    if kb.store.seq(l).contains(ev) {
                        let j = choose|j: int| 0 <= j < kb.store.seq(l).len() && kb.store.seq(l)[j] == ev;
                        assert(kb.store.container(kb.store.seq(l)[j] as int) == Some(l as usize));
                    }
                }
                assert(!s.contains(ev));
                lemma_remove_all_step(s, gone, ev);
                lemma_remove_all_cursor(s, gone, ev, k1.store.cursor(l));
            }
        }
    }
}

/// The two items of each task that owns an item of `moved`.
pub open spec fn moved_items(k: &Kernel, moved: Seq<ItemHandle>) -> Set<ItemHandle> {
    Set::new(
        |y: ItemHandle|
            exists|j: int|
                0 <= j < moved.len() && (y == k.st(k.owner_of(#[trigger] moved[j] as int)) || y == k.ev(
                    k.owner_of(moved[j] as int),
                )),
    )
}

/// One more task moved: both its items join the items gone.
proof fn lemma_moved_items_push(k: &Kernel, m: Seq<ItemHandle>, x: ItemHandle)
    ensures
        moved_items(k, m.push(x)) == moved_items(k, m).insert(k.st(k.owner_of(x as int))).insert(
            k.ev(k.owner_of(x as int)),
        ),
{
    let m1 = m.push(x);
    let t = k.owner_of(x as int);
    let g = moved_items(k, m).insert(k.st(t)).insert(k.ev(t));
    assert forall|y: ItemHandle| #[trigger] moved_items(k, m1).contains(y) <==> g.contains(y) by {
        if moved_items(k, m1).contains(y) {
            let j = choose|j: int|
                0 <= j < m1.len() && (y == k.st(k.owner_of(#[trigger] m1[j] as int)) || y == k.ev(
                    k.owner_of(m1[j] as int),
                ));
            if j < m.len() {
                assert(m1[j] == m[j]);
            }
        }
        if moved_items(k, m).contains(y) {
            let j = choose|j: int|
                0 <= j < m.len() && (y == k.st(k.owner_of(#[trigger] m[j] as int)) || y == k.ev(
                    k.owner_of(m[j] as int),
                ));
            assert(m1[j] == m[j]);
        }
        if y == k.st(t) || y == k.ev(t) {
            assert(m1[m.len() as int] == x);
        }
    }
    assert(moved_items(k, m1) =~= g);
}

/// One more task woken: its event item joins the items gone.
proof fn lemma_woken_events_push(k: &Kernel, m: Seq<ItemHandle>, x: ItemHandle)
    ensures
        woken_events(k, m.push(x)) == woken_events(k, m).insert(k.ev(k.owner_of(x as int))),
{
    let m1 = m.push(x);
    assert forall|y: ItemHandle| #[trigger] woken_events(k, m1).contains(y) <==> woken_events(k, m).insert(
        k.ev(k.owner_of(x as int)),
    ).contains(y) by {
        if woken_events(k, m1).contains(y) {
            let j = choose|j: int| 0 <= j < m1.len() && y == k.ev(k.owner_of(#[trigger] m1[j] as int));
            if j < m.len() {
                assert(m1[j] == m[j]);
            }
        }
        if woken_events(k, m).contains(y) {
            let j = choose|j: int| 0 <= j < m.len() && y == k.ev(k.owner_of(#[trigger] m[j] as int));
            assert(m1[j] == m[j]);
        }
        if y == k.ev(k.owner_of(x as int)) {
            assert(m1[m.len() as int] == x);
        }
    }
    assert(woken_events(k, m1) =~= woken_events(k, m).insert(k.ev(k.owner_of(x as int))));
}

/// The list that holds item `y` once the tasks with an item in `moved`
/// went to their ready lists, their event items leaving any list.
pub open spec fn container_after_wake(k: &Kernel, moved: Seq<ItemHandle>, y: int) -> Option<ListHandle> {
    let t = k.owner_of(y);
    if !k.store.is_end(y) && (moved.contains(k.st(t)) || moved.contains(k.ev(t))) {
        if y == k.st(t) as int {
            Some(k.ready(k.prio(t) as int))
        } else {
            None
        }
    } else {
        k.store.container(y)
    }
}

/// The top ready priority once the tasks of `moved` became ready.
pub open spec fn top_after_wake(k: &Kernel, moved: Seq<ItemHandle>) -> UBaseType
    decreases moved.len(),
{
    if moved.len() == 0 {
        k.top_ready_priority
    } else {
        max_prio(top_after_wake(k, moved.drop_last()), k.owner_prio(moved.last() as int))
    }
}

/// Some task of `moved` has a priority of at least `p`.
pub open spec fn wakes_priority(k: &Kernel, moved: Seq<ItemHandle>, p: UBaseType) -> bool {
    exists|j: int| 0 <= j < moved.len() && #[trigger] k.owner_prio(moved[j] as int) >= p
}

/// The state items of the tasks of `moved` whose ready list is `l`, in
/// the order of `moved`.
pub open spec fn ready_part(k: &Kernel, moved: Seq<ItemHandle>, l: int) -> Seq<ItemHandle>
    decreases moved.len(),
{
    if moved.len() == 0 {
        Seq::empty()
    } else {
        let rest = ready_part(k, moved.drop_last(), l);
        let t = k.owner_of(moved.last() as int);
        if k.ready(k.prio(t) as int) as int == l {
            rest.push(k.st(t))
        } else {
            rest
        }
    }
}

/// Where the tasks joining list `l` go in: before its cursor, at the end
/// when the cursor is at the end marker.
pub open spec fn join_point(k: &Kernel, l: int) -> int {
    if k.store.cursor(l) < 0 {
        k.store.seq(l).len() as int
    } else {
        k.store.cursor(l)
    }
}

/// Ready list `l` once the tasks of `moved` joined it one after another.
pub open spec fn ready_seq_after_wake(k: &Kernel, moved: Seq<ItemHandle>, l: int) -> Seq<ItemHandle> {
    let s = k.store.seq(l);
    s.take(join_point(k, l)) + ready_part(k, moved, l) + s.skip(join_point(k, l))
}

/// The cursor of ready list `l` once the tasks of `moved` joined it: it
/// stays on the item it was on.
pub open spec fn ready_cursor_after_wake(k: &Kernel, moved: Seq<ItemHandle>, l: int) -> int {
    if k.store.cursor(l) < 0 {
        -1
    } else {
        k.store.cursor(l) + ready_part(k, moved, l).len()
    }
}

/// The ready lists start as they were.
proof fn lemma_ready_start(k1: &Kernel, d: Seq<ItemHandle>)
    requires
        k1.wf(),
    ensures
        forall|p: int|
            0 <= p < configMAX_PRIORITIES ==> {
                let l = #[trigger] k1.ready(p) as int;
                k1.store.seq(l) == ready_seq_after_wake(k1, d.take(0), l) && k1.store.cursor(l)
                    == ready_cursor_after_wake(k1, d.take(0), l)
            },
{
    k1.store.lemma_wf();
    assert forall|p: int| 0 <= p < configMAX_PRIORITIES implies {
        let l = #[trigger] k1.ready(p) as int;
        k1.store.seq(l) == ready_seq_after_wake(k1, d.take(0), l) && k1.store.cursor(l) == ready_cursor_after_wake(
            k1,
            d.take(0),
            l,
        )
    } by {
        let l = k1.ready(p) as int;
        assert(k1.lists_ok());
        assert(0 <= l < k1.store.num_lists());
        assert(d.take(0).len() == 0);
        assert(ready_part(k1, d.take(0), l) =~= Seq::<ItemHandle>::empty());
        let s = k1.store.seq(l);
        assert(s.take(join_point(k1, l)) + Seq::<ItemHandle>::empty() + s.skip(join_point(k1, l)) =~= s);
    }
}

/// One task joined its ready list (store `kd`) after the lists were as
/// `d.take(i)` says (store `ka`) and its items left their lists (store
/// `kc`, no ready list touched).
proof fn lemma_ready_step(k1: &Kernel, d: Seq<ItemHandle>, i: int, ka: &Kernel, kc: &Kernel, kd: &Kernel, t: int)
    requires
        k1.wf(),
        0 <= i < d.len(),
        0 <= t < k1.tasks@.len(),
        k1.owner_of(d[i] as int) == t,
        kc.store.num_lists() == k1.store.num_lists(),
        forall|p: int|
            0 <= p < configMAX_PRIORITIES ==> {
                let l = #[trigger] k1.ready(p) as int;
                ka.store.seq(l) == ready_seq_after_wake(k1, d.take(i), l) && ka.store.cursor(l)
                    == ready_cursor_after_wake(k1, d.take(i), l)
            },
        forall|p: int|
            0 <= p < configMAX_PRIORITIES ==> {
                let l = #[trigger] k1.ready(p) as int;
                kc.store.seq(l) == ka.store.seq(l) && kc.store.cursor(l) == ka.store.cursor(l)
            },
        ({
            let target = k1.ready(k1.prio(t) as int) as int;
            &&& kd.store.seq(target) == crate::tasks::insert_before_cursor(
                kc.store.seq(target),
                kc.store.cursor(target),
                k1.st(t),
            )
            &&& kd.store.cursor(target) == crate::list::cursor_after_insert(
                kc.store.cursor(target),
                if kc.store.cursor(target) < 0 {
                    kc.store.seq(target).len() as int
                } else {
                    kc.store.cursor(target)
                },
            )
            &&& kd.store.frame(&kc.store, target, k1.st(t) as int)
        }),
    ensures
        forall|p: int|
            0 <= p < configMAX_PRIORITIES ==> {
                let l = #[trigger] k1.ready(p) as int;
                kd.store.seq(l) == ready_seq_after_wake(k1, d.take(i + 1), l) && kd.store.cursor(l)
                    == ready_cursor_after_wake(k1, d.take(i + 1), l)
            },
{
    let m0 = d.take(i);
    let m1 = d.take(i + 1);
    assert(m1.drop_last() =~= m0);
    assert(m1.last() == d[i]);
    let target = k1.ready(k1.prio(t) as int) as int;
    k1.store.lemma_wf();
    assert(k1.lists_ok());
    assert(k1.tasks_ok());
    assert(k1.st(t) < k1.store.num_items());
    assert forall|p: int| 0 <= p < configMAX_PRIORITIES implies {
        let l = #[trigger] k1.ready(p) as int;
        kd.store.seq(l) == ready_seq_after_wake(k1, m1, l) && kd.store.cursor(l) == ready_cursor_after_wake(
            k1,
            m1,
            l,
        )
    } by {
        let l = k1.ready(p) as int;
        assert(0 <= l < k1.store.num_lists());
        let s = k1.store.seq(l);
        let c = k1.store.cursor(l);
        let f0 = ready_part(k1, m0, l);
        let jp = join_point(k1, l);
        assert(0 <= jp <= s.len());
        if l == target {
            assert(ready_part(k1, m1, l) == f0.push(k1.st(t)));
            let sa = s.take(jp) + f0 + s.skip(jp);
            assert(kc.store.seq(l) == sa);
            if c < 0 {
                assert(s.skip(jp) =~= Seq::<ItemHandle>::empty());
                assert(sa.insert(sa.len() as int, k1.st(t)) =~= s.take(jp) + f0.push(k1.st(t)) + s.skip(jp));
            } else {
                assert(sa.insert(c + f0.len(), k1.st(t)) =~= s.take(jp) + f0.push(k1.st(t)) + s.skip(jp));
            }
        } else {
            assert(ready_part(k1, m1, l) == f0);
            assert(kd.store.seq(l) == kc.store.seq(l));
            assert(kd.store.cursor(l) == kc.store.cursor(l));
        }
    }
}

/// Trading the delayed list and the overflow delayed list keeps the
/// scheduler consistent.
proof fn lemma_swap_delayed(k0: &Kernel, k1: &Kernel)
    requires
        k0.wf(),
        *k1 == (Kernel {
            tick_count: k1.tick_count,
            delayed_task_list: k0.overflow_delayed_task_list,
            overflow_delayed_task_list: k0.delayed_task_list,
            ..*k0
        }),
    ensures
        k1.wf(),
{
    assert forall|p: int| #[trigger] k1.ready(p) == k0.ready(p) by {}
    assert forall|ll: int| #[trigger] k1.is_state_list(ll) == k0.is_state_list(ll) by {}
    assert forall|t: int| #[trigger] k1.st(t) == k0.st(t) && k1.ev(t) == k0.ev(t) && k1.prio(t) == k0.prio(t) by {}
    assert forall|y: int| #[trigger] k1.owner_of(y) == k0.owner_of(y) by {}
    assert(k1.lists_ok());
    assert(k1.tasks_ok());
    assert(k1.items_ok());
    assert(k1.alive_ok(-1)) by {
        assert forall|t: int| 0 <= t < k1.tasks@.len() implies #[trigger] k1.placed_ok(t, -1) by {
            assert(k0.placed_ok(t, -1));
        }
    }
}

/// Whether the tick that took `k0` to `k` requires a switch: a woken task
/// has a priority of at least the running one's, or another task shares the
/// running task's ready list.
pub open spec fn tick_switch(k0: Kernel, k: Kernel) -> bool {
    let cp = k0.current_prio();
    wakes_priority(&ticked(k0), woken(k0), cp) || k.store.seq(k0.ready(cp as int) as int).len() > 1
}

/// What a tick of the running scheduler does, taking `k0` to `k` with
/// result `r`: the tick count goes up (the delayed lists trade places when
/// it wraps to zero), the tasks whose wake time has come leave the delayed
/// list for the end of their ready lists, their event items leave the other
/// lists, and the next unblocking is the wake time of the new head.
pub open spec fn tick_post(k0: Kernel, k: Kernel, r: bool) -> bool {
    let k1 = ticked(k0);
    let d = k1.store.seq(k1.delayed_task_list as int);
    let moved = woken(k0);
    let n = moved.len() as int;
    let cp = k0.current_prio();
    &&& k.tick_count == k1.tick_count
    &&& k.delayed_task_list == k1.delayed_task_list
    &&& k.overflow_delayed_task_list == k1.overflow_delayed_task_list
    &&& k.store.seq(k1.delayed_task_list as int) == d.skip(n)
    &&& k.store.cursor(k1.delayed_task_list as int) == cursor_after_drop(
        k1.store.cursor(k1.delayed_task_list as int),
        n,
    )
    &&& k.store.num_items() == k0.store.num_items()
    &&& k.store.num_lists() == k0.store.num_lists()
    &&& forall|y: int|
        0 <= y < k0.store.num_items() ==> #[trigger] k.store.container(y)
            == container_after_wake(&k1, moved, y) && k.store.value(y) == k0.store.value(y)
            && k.store.owner(y) == k0.store.owner(y)
    &&& k.top_ready_priority == top_after_wake(&k1, moved)
    &&& others_without(&k1, &k, woken_events(&k1, moved), k1.delayed_task_list as int)
    &&& forall|p: int|
        0 <= p < configMAX_PRIORITIES ==> {
            let l = #[trigger] k1.ready(p) as int;
            k.store.seq(l) == ready_seq_after_wake(&k1, moved, l) && k.store.cursor(l)
                == ready_cursor_after_wake(&k1, moved, l)
        }
    &&& k.next_task_unblock_time == (if k1.tick_count >= k0.next_task_unblock_time {
        if n == d.len() {
            portMAX_DELAY
        } else {
            k0.store.value(d[n] as int)
        }
    } else {
        k0.next_task_unblock_time
    })
    &&& r == tick_switch(k0, k)
    &&& k == (Kernel {
        store: k.store,
        tick_count: k.tick_count,
        delayed_task_list: k.delayed_task_list,
        overflow_delayed_task_list: k.overflow_delayed_task_list,
        top_ready_priority: k.top_ready_priority,
        next_task_unblock_time: k.next_task_unblock_time,
        ..k0
    })
}

/// The tick.  With the scheduler running: the tick count goes one on (the
/// delayed lists trading places when it wraps to zero); when it reaches the
/// next unblocking, the tasks at the head of the delayed list whose wake time
/// has come leave it (and any event list) for their ready lists, and the
/// next unblocking becomes the wake time of the new head (`portMAX_DELAY`
/// when none is left).  A switch is required when a woken task's priority
/// is at least the running one's, or another task shares the running
/// task's ready list.  With the scheduler suspended the tick is counted as
/// pended and a switch is required when a yield is pending.
#[verifier::rlimit(80)]
#[verifier::spinoff_prover]
pub fn task_increment_tick(k: &mut Kernel) -> (r: bool)
    requires
        old(k).wf(),
        old(k).scheduler_suspended == 0 ==> old(k).current_tcb is Some,
        old(k).scheduler_suspended != 0 ==> old(k).pended_ticks < UBaseType::MAX,
    ensures
        final(k).wf(),
        old(k).scheduler_suspended != 0 ==> r == old(k).yield_pending && *final(k) == (Kernel {
            pended_ticks: (old(k).pended_ticks + 1) as UBaseType,
            ..*old(k)
        }),
        old(k).scheduler_suspended == 0 ==> tick_post(*old(k), *final(k), r),
{
    let ghost k0 = *old(k);
    let mut switch_required = false;
    if k.scheduler_suspended == 0 {
        let const_tick_count = k.tick_count.wrapping_add(1);
        k.tick_count = const_tick_count;
        if const_tick_count == 0 {
            let delayed = k.delayed_task_list;
            k.delayed_task_list = k.overflow_delayed_task_list;
            k.overflow_delayed_task_list = delayed;
            proof {
                lemma_swap_delayed(&k0, k);
            }
        } else {
            proof {
                lemma_counters_only(&k0, k);
            }
        }
        let ghost k1 = *k;
        let ghost d = k1.store.seq(k1.delayed_task_list as int);
        let cur = k.current_tcb.unwrap();
        let ghost cp = k0.current_prio();
        let ghost mut i: int = 0;
        proof {
            assert(k1 == ticked(k0));
            assert(d.take(0) =~= Seq::<ItemHandle>::empty());
            assert(d.skip(0) =~= d);
            assert(!wakes_priority(&k1, d.take(0), cp));
            lemma_ready_start(&k1, d);
            lemma_others_start(&k1, k1.delayed_task_list as int);
            assert(woken_events(&k1, d.take(0)) =~= Set::<ItemHandle>::empty());
            k1.store.lemma_wf();
            assert(k1.lists_ok());
            assert(-1 <= k1.store.cursor(k1.delayed_task_list as int));
            assert(k.store.cursor(k1.delayed_task_list as int) == cursor_after_drop(
                k1.store.cursor(k1.delayed_task_list as int),
                0,
            ));
        }
        if const_tick_count >= k.next_task_unblock_time {
            loop
                invariant_except_break
                    k.next_task_unblock_time == k1.next_task_unblock_time,
                invariant
                    k1.wf(),
                    k1.current_tcb == Some(cur),
                    cp == k1.prio(cur as int),
                    cur < k1.tasks@.len(),
                    k.wf(),
                    0 <= i <= d.len(),
                    k.store.seq(k1.delayed_task_list as int) == d.skip(i),
                    k.store.cursor(k1.delayed_task_list as int) == cursor_after_drop(
                        k1.store.cursor(k1.delayed_task_list as int),
                        i,
                    ),
                    i + leading_due(&k1.store, d.skip(i), const_tick_count) == leading_due(&k1.store, d, const_tick_count),
                    k.store.num_items() == k1.store.num_items(),
                    k.store.num_lists() == k1.store.num_lists(),
                    forall|y: int|
                        0 <= y < k1.store.num_items() ==> #[trigger] k.store.container(y)
                            == container_after_wake(&k1, d.take(i), y) && k.store.value(y) == k1.store.value(y)
                            && k.store.owner(y) == k1.store.owner(y) && k.store.is_end(y) == k1.store.is_end(y),
                    k.top_ready_priority == top_after_wake(&k1, d.take(i)),
                    others_without(&k1, k, woken_events(&k1, d.take(i)), k1.delayed_task_list as int),
                    forall|p: int|
                        0 <= p < configMAX_PRIORITIES ==> {
                            let l = #[trigger] k1.ready(p) as int;
                            k.store.seq(l) == ready_seq_after_wake(&k1, d.take(i), l) && k.store.cursor(l)
                                == ready_cursor_after_wake(&k1, d.take(i), l)
                        },
                    switch_required == wakes_priority(&k1, d.take(i), cp),
                    *k == (Kernel {
                        store: k.store,
                        top_ready_priority: k.top_ready_priority,
                        next_task_unblock_time: k.next_task_unblock_time,
                        ..k1
                    }),
                ensures
                    k.wf(),
                    0 <= i <= d.len(),
                    k.store.seq(k1.delayed_task_list as int) == d.skip(i),
                    k.store.cursor(k1.delayed_task_list as int) == cursor_after_drop(
                        k1.store.cursor(k1.delayed_task_list as int),
                        i,
                    ),
                    k.store.num_items() == k1.store.num_items(),
                    k.store.num_lists() == k1.store.num_lists(),
                    forall|y: int|
                        0 <= y < k1.store.num_items() ==> #[trigger] k.store.container(y)
                            == container_after_wake(&k1, d.take(i), y) && k.store.value(y) == k1.store.value(y)
                            && k.store.owner(y) == k1.store.owner(y) && k.store.is_end(y) == k1.store.is_end(y),
                    k.top_ready_priority == top_after_wake(&k1, d.take(i)),
                    others_without(&k1, k, woken_events(&k1, d.take(i)), k1.delayed_task_list as int),
                    forall|p: int|
                        0 <= p < configMAX_PRIORITIES ==> {
                            let l = #[trigger] k1.ready(p) as int;
                            k.store.seq(l) == ready_seq_after_wake(&k1, d.take(i), l) && k.store.cursor(l)
                                == ready_cursor_after_wake(&k1, d.take(i), l)
                        },
                    switch_required == wakes_priority(&k1, d.take(i), cp),
                    *k == (Kernel {
                        store: k.store,
                        top_ready_priority: k.top_ready_priority,
                        next_task_unblock_time: k.next_task_unblock_time,
                        ..k1
                    }),
                    i == leading_due(&k1.store, d, const_tick_count),
                    k.next_task_unblock_time == (if i == d.len() {
                        portMAX_DELAY
                    } else {
                        k1.store.value(d[i] as int)
                    }),
                decreases d.len() - i,
            {
                let ghost ka = *k;
                proof {
                    assert(k.lists_ok());
                }
                if list_is_empty(&k.store, k.delayed_task_list) {
                    k.next_task_unblock_time = portMAX_DELAY;
                    proof {
                        assert(d.skip(i).len() == 0);
                        lemma_counters_only(&ka, k);
                    }
                    break;
                }
                proof {
                    ka.store.lemma_wf();
                    let x0 = ka.store.seq(ka.delayed_task_list as int)[0] as int;
                    assert(ka.store.container(x0) == Some(ka.delayed_task_list));
                    assert(!ka.store.is_end(x0));
                    assert(ka.store.owner(x0) is Some);
                }
                let t = get_owner_of_head_entry(&k.store, k.delayed_task_list);
                let task = TaskHandle(t);
                let ghost x = d[i];
                proof {
                    assert(d.skip(i)[0] == x);
                    assert(ka.items_ok());
                    assert(ka.store.owner(x as int) == Some(t));
                    assert(0 <= t < ka.tasks@.len());
                    assert(ka.is_state_list(ka.delayed_task_list as int));
                    assert(x == ka.st(t as int));
                }
                let st = task.get_state_list_item(k);
                let ev = task.get_event_list_item(k);
                let item_value = get_list_item_value(&k.store, st);
                if const_tick_count < item_value {
                    k.next_task_unblock_time = item_value;
                    proof {
                        assert(d.skip(i).len() > 0);
                        assert(leading_due(&k1.store, d.skip(i), const_tick_count) == 0);
                        lemma_counters_only(&ka, k);
                    }
                    break;
                }
                proof {
                    assert(ka.tasks_ok());
                    assert(ka.st(t as int) < ka.store.num_items());
                    assert(ka.store.seq(ka.delayed_task_list as int).no_duplicates());
                    assert(position_in_head(ka.store.seq(ka.delayed_task_list as int), st));
                }
                list_remove(&mut k.store, st);
                let ghost kb = *k;
                proof {
                    lemma_store_step(&ka, &kb, -1, t as int, ka.delayed_task_list as int, st as int);
                    assert(kb.store.seq(ka.delayed_task_list as int) =~= d.skip(i + 1));
                    lemma_others_frame(&k1, &ka, &kb, woken_events(&k1, d.take(i)), k1.delayed_task_list as int, ka.delayed_task_list as int, st as int);
                    assert(kb.store.cursor(k1.delayed_task_list as int) == cursor_after_drop(
                        k1.store.cursor(k1.delayed_task_list as int),
                        i + 1,
                    ));
                }
                if get_list_item_container(&k.store, ev).is_some() {
                    let ghost lev = kb.store.container(ev as int)->0 as int;
                    proof {
                        kb.store.lemma_wf();
                        assert(0 <= lev < kb.store.num_lists());
                    }
                    list_remove(&mut k.store, ev);
                    proof {
                        let kc = *k;
                        lemma_store_step(&kb, &kc, t as int, t as int, lev, ev as int);
                        assert(kb.items_ok());
                        assert(!kb.is_state_list(lev)) by {
                            assert(ev != kb.st(kb.owner_of(ev as int)));
                        }
                        assert(other_list(&k1, lev, k1.delayed_task_list as int));
                        lemma_others_remove(&k1, &kb, &kc, woken_events(&k1, d.take(i)), k1.delayed_task_list as int, ev, lev);
                        assert(kb.items_ok());
                        assert(ev != kb.st(kb.owner_of(ev as int)));
                        assert(!kb.is_state_list(lev));
                        assert(lev != ka.delayed_task_list);
                        assert(kc.store.seq(ka.delayed_task_list as int) == kb.store.seq(ka.delayed_task_list as int));
                        assert forall|p: int| 0 <= p < configMAX_PRIORITIES implies {
                            let l = #[trigger] k1.ready(p) as int;
                            kc.store.seq(l) == kb.store.seq(l) && kc.store.cursor(l) == kb.store.cursor(l)
                        } by {
                            assert(kb.ready_task_lists@[p] == kb.ready(p));
                            assert(kb.ready_task_lists@.contains(kb.ready(p)));
                            assert(kb.is_state_list(kb.ready(p) as int));
                            assert(k1.ready(p) == kb.ready(p));
                            assert(kb.lists_ok());
                            assert(kb.ready(p) < kb.store.num_lists());
                            assert(kb.ready(p) as int != lev);
                            let l = k1.ready(p) as int;
                            assert(kc.store.seq(l) == kb.store.seq(l));
                            assert(kc.store.cursor(l) == kb.store.cursor(l));
                        }
                    }
                }
                let ghost kc = *k;
                proof {
                    assert forall|p: int| 0 <= p < configMAX_PRIORITIES implies {
                        let l = #[trigger] k1.ready(p) as int;
                        kc.store.seq(l) == ka.store.seq(l) && kc.store.cursor(l) == ka.store.cursor(l)
                    } by {
                        let l = k1.ready(p) as int;
                        assert(ka.ready_task_lists@[p] == ka.ready(p));
                        assert(ka.ready_task_lists@.contains(ka.ready(p)));
                        assert(ka.lists_ok());
                        assert(ka.ready(p) == k1.ready(p));
                        assert(ka.ready(p) < ka.store.num_lists());
                        assert(l != ka.delayed_task_list as int);
                        assert(kb.store.seq(l) == ka.store.seq(l));
                        assert(kb.store.cursor(l) == ka.store.cursor(l));
                        assert(kc.store.seq(l) == kb.store.seq(l) && kc.store.cursor(l) == kb.store.cursor(l));
                    }
                    if kb.store.container(ev as int) is None {
                        lemma_others_absent(&k1, &kb, woken_events(&k1, d.take(i)), k1.delayed_task_list as int, ev);
                    }
                    assert(others_without(&k1, &kc, woken_events(&k1, d.take(i)).insert(ev), k1.delayed_task_list as int));
                }
                let _ = task.add_task_to_ready_list(k);
                let ghost kd = *k;
                if k.tasks[t].priority >= k.tasks[cur].priority {
                    switch_required = true;
                }
                proof {
                    let rl = kc.ready(kc.prio(t as int) as int) as int;
                    assert(kc.lists_ok());
                    assert(kc.tasks_ok());
                    assert(kc.ready_task_lists@[kc.prio(t as int) as int] == rl);
                    assert(!other_list(&k1, rl, k1.delayed_task_list as int));
                    lemma_others_frame(&k1, &kc, &kd, woken_events(&k1, d.take(i)).insert(ev), k1.delayed_task_list as int, rl, st as int);
                    lemma_woken_events_push(&k1, d.take(i), d[i]);
                    assert(d.take(i + 1) =~= d.take(i).push(d[i]));
                    assert(ev == k1.ev(k1.owner_of(d[i] as int)));
                    assert(others_without(&k1, &kd, woken_events(&k1, d.take(i + 1)), k1.delayed_task_list as int));
                    assert(rl != k1.delayed_task_list as int);
                    assert(kd.store.seq(k1.delayed_task_list as int) == kc.store.seq(k1.delayed_task_list as int));
                    assert(kd.store.cursor(k1.delayed_task_list as int) == kc.store.cursor(k1.delayed_task_list as int));
                    assert(kc.store.cursor(k1.delayed_task_list as int) == kb.store.cursor(k1.delayed_task_list as int));
                    lemma_wake_step(&k1, d, i, &ka, &kb, &kc, &kd, t as int, ka.delayed_task_list as int);
                    assert(k1.owner_of(d[i] as int) == t);
                    lemma_ready_step(&k1, d, i, &ka, &kc, &kd, t as int);
                    let m0 = d.take(i);
                    let m1 = d.take(i + 1);
                    assert(m1.drop_last() =~= m0);
                    assert(m1.last() == x);
                    assert(k1.owner_of(x as int) == t);
                    assert(wakes_priority(&k1, m1, cp) == (wakes_priority(&k1, m0, cp) || k1.prio(t as int) >= cp)) by {
                        if k1.prio(t as int) >= cp {
                            assert(m1[i] == x);
                            assert(k1.owner_prio(m1[i] as int) >= cp);
                        }
                        if wakes_priority(&k1, m0, cp) {
                            let j = choose|j: int| 0 <= j < m0.len() && #[trigger] k1.owner_prio(m0[j] as int) >= cp;
                            assert(m1[j] == m0[j]);
                            assert(k1.owner_prio(m1[j] as int) >= cp);
                        }
                        if wakes_priority(&k1, m1, cp) {
                            let j = choose|j: int| 0 <= j < m1.len() && #[trigger] k1.owner_prio(m1[j] as int) >= cp;
                            if j < i {
                                assert(m0[j] == m1[j]);
                                assert(k1.owner_prio(m0[j] as int) >= cp);
                            }
                        }
                    }
                    assert(d.skip(i).drop_first() =~= d.skip(i + 1));
                    assert(k1.store.value(x as int) <= const_tick_count);
                    i = i + 1;
                }
            }
        }
        let cur_task_pri = k.tasks[cur].priority;
        proof {
            assert(k.lists_ok());
            assert(k.tasks_ok());
            assert(k.tasks == k1.tasks);
            assert(cur < k.tasks@.len());
            assert(k.st(cur as int) < k.store.num_items());
            assert(cur_task_pri < configMAX_PRIORITIES);
            assert(k.ready(cur_task_pri as int) < k.store.num_lists());
        }
        if current_list_length(&k.store, k.ready_task_lists[cur_task_pri as usize]) > 1 {
            switch_required = true;
        }
        proof {
            assert(woken(k0) =~= d.take(i));
        }
    } else {
        k.pended_ticks = k.pended_ticks + 1;
        if k.yield_pending {
            switch_required = true;
        }
        proof {
            lemma_counters_only(&k0, k);
        }
    }
    switch_required
}

proof fn lemma_push_contains(s: Seq<ItemHandle>, a: ItemHandle, x: ItemHandle)
    requires
        x != a,
    ensures
        s.push(a).contains(x) == s.contains(x),
{
    if s.push(a).contains(x) {
        let j = choose|j: int| 0 <= j < s.push(a).len() && s.push(a)[j] == x;
        assert(j < s.len());
        assert(s[j] == x);
    }
    if s.contains(x) {
        let j = choose|j: int| 0 <= j < s.len() && s[j] == x;
        assert(s.push(a)[j] == x);
    }
}

/// `x` heads `s`, which holds no item twice.
spec fn position_in_head(s: Seq<ItemHandle>, x: ItemHandle) -> bool {
    s.len() > 0 && s[0] == x && crate::list::position_in(s, x) == 0
}

/// One task made ready: its state item left list `l0` (store `kb`), its
/// event item left any list (store `kc`), and it went to its ready list
/// (store `kd`); `d[i]` is one of its items.
proof fn lemma_wake_step(
    k1: &Kernel,
    d: Seq<ItemHandle>,
    i: int,
    ka: &Kernel,
    kb: &Kernel,
    kc: &Kernel,
    kd: &Kernel,
    t: int,
    l0: int,
)
    requires
        k1.wf(),
        0 <= i < d.len(),
        0 <= t < k1.tasks@.len(),
        d[i] == k1.st(t) || d[i] == k1.ev(t),
        ka.tasks == k1.tasks,
        ka.ready_task_lists == k1.ready_task_lists,
        ka.store.num_items() == k1.store.num_items(),
        forall|y: int|
            0 <= y < k1.store.num_items() ==> #[trigger] ka.store.container(y) == container_after_wake(
                k1,
                d.take(i),
                y,
            ) && ka.store.value(y) == k1.store.value(y) && ka.store.owner(y) == k1.store.owner(y)
                && ka.store.is_end(y) == k1.store.is_end(y),
        kb.store.frame(&ka.store, l0, k1.st(t) as int),
        kb.store.container(k1.st(t) as int) is None,
        kc.store.num_items() == kb.store.num_items(),
        forall|y: int|
            0 <= y < kb.store.num_items() && y != k1.ev(t) ==> #[trigger] kc.store.container(y)
                == kb.store.container(y) && kc.store.value(y) == kb.store.value(y) && kc.store.owner(y)
                == kb.store.owner(y) && kc.store.is_end(y) == kb.store.is_end(y),
        kc.store.value(k1.ev(t) as int) == kb.store.value(k1.ev(t) as int),
        kc.store.owner(k1.ev(t) as int) == kb.store.owner(k1.ev(t) as int),
        kc.store.is_end(k1.ev(t) as int) == kb.store.is_end(k1.ev(t) as int),
        kc.store.container(k1.ev(t) as int) is None,
        kd.store.frame(&kc.store, k1.ready(k1.prio(t) as int) as int, k1.st(t) as int),
        kd.store.container(k1.st(t) as int) == Some(k1.ready(k1.prio(t) as int)),
        kd.tasks == k1.tasks,
    ensures
        forall|y: int|
            0 <= y < k1.store.num_items() ==> #[trigger] kd.store.container(y) == container_after_wake(
                k1,
                d.take(i + 1),
                y,
            ) && kd.store.value(y) == k1.store.value(y) && kd.store.owner(y) == k1.store.owner(y)
                && kd.store.is_end(y) == k1.store.is_end(y),
{
    let m0 = d.take(i);
    let m1 = d.take(i + 1);
    assert(m1 =~= m0.push(d[i]));
    assert(k1.tasks_ok());
    assert forall|y: int| 0 <= y < k1.store.num_items() implies #[trigger] kd.store.container(y)
        == container_after_wake(k1, m1, y) && kd.store.value(y) == k1.store.value(y) && kd.store.owner(y)
        == k1.store.owner(y) && kd.store.is_end(y) == k1.store.is_end(y) by {
        assert(ka.store.container(y) == container_after_wake(k1, m0, y));
        assert(kb.store.value(y) == ka.store.value(y));
        assert(kb.store.owner(y) == ka.store.owner(y));
        assert(kb.store.is_end(y) == ka.store.is_end(y));
        assert(kc.store.value(y) == kb.store.value(y));
        assert(kc.store.owner(y) == kb.store.owner(y));
        assert(kc.store.is_end(y) == kb.store.is_end(y));
        assert(kd.store.value(y) == kc.store.value(y));
        assert(kd.store.owner(y) == kc.store.owner(y));
        assert(kd.store.is_end(y) == kc.store.is_end(y));
        let u = k1.owner_of(y);
        assert(m1.contains(k1.st(t)) || m1.contains(k1.ev(t))) by {
            assert(m1[i] == d[i]);
        }
        if y == k1.st(t) as int {
            assert(k1.owner_of(y) == t);
        } else if y == k1.ev(t) as int {
            assert(k1.owner_of(y) == t);
            assert(k1.st(t) != k1.ev(t));
        } else {
            assert(kd.store.container(y) == ka.store.container(y));
            if !k1.store.is_end(y) {
                assert(k1.items_ok());
                assert(0 <= u < k1.tasks@.len());
                assert(u != t) by {
                    if u == t {
                        assert(y == k1.st(t) || y == k1.ev(t));
                    }
                }
                assert(k1.st(u) != d[i] && k1.ev(u) != d[i]) by {
                    assert(k1.store.owner(k1.st(u) as int) == Some(u as usize));
                    assert(k1.store.owner(k1.ev(u) as int) == Some(u as usize));
                    assert(k1.store.owner(k1.st(t) as int) == Some(t as usize));
                    assert(k1.store.owner(k1.ev(t) as int) == Some(t as usize));
                }
                lemma_push_contains(m0, d[i], k1.st(u));
                lemma_push_contains(m0, d[i], k1.ev(u));
            }
        }
    }
}

/// The task `t` whose event item is `p[i]` has neither item among the
/// first `i` items of the pending list.
proof fn lemma_not_moved_yet(k0: &Kernel, p: Seq<ItemHandle>, i: int, t: int)
    requires
        k0.wf(),
        p == k0.store.seq(k0.pending_ready_list as int),
        0 <= i < p.len(),
        0 <= t < k0.tasks@.len(),
        p[i] == k0.ev(t),
    ensures
        !p.take(i).contains(k0.st(t)),
        !p.take(i).contains(k0.ev(t)),
{
    k0.store.lemma_wf();
    assert(k0.tasks_ok());
    assert(k0.lists_ok());
    let st = k0.st(t);
    assert(st < k0.store.num_items());
    assert(k0.store.owner(st as int) == Some(t as usize));
    assert(!p.take(i).contains(st)) by {
        if p.take(i).contains(st) {
            let j = choose|j: int| 0 <= j < p.take(i).len() && p.take(i)[j] == st;
            assert(p[j] == st);
            assert(k0.store.container(st as int) == Some(k0.pending_ready_list));
            assert(k0.items_ok());
        }
    }
    assert(p.no_duplicates());
    assert(!p.take(i).contains(k0.ev(t))) by {
        if p.take(i).contains(k0.ev(t)) {
            let j = choose|j: int| 0 <= j < p.take(i).len() && p.take(i)[j] == k0.ev(t);
            assert(p[j] == p[i]);
        }
    }
}

/// Ready list `l` of `k` (its items and its cursor) once the tasks that own
/// the items of `moved` went to their ready lists one after another: each
/// task's state item first leaves `l` when it was there, then joins `l`
/// before its cursor when `l` is the task's ready list.
pub open spec fn ready_after_moves(k: &Kernel, moved: Seq<ItemHandle>, l: int) -> (Seq<ItemHandle>, int)
    decreases moved.len(),
{
    if moved.len() == 0 {
        (k.store.seq(l), k.store.cursor(l))
    } else {
        let (s, c) = ready_after_moves(k, moved.drop_last(), l);
        let t = k.owner_of(moved.last() as int);
        let x = k.st(t);
        let (s1, c1) = if k.store.container(x as int) == Some(l as usize) {
            let pos = position_in(s, x);
            (s.remove(pos), cursor_after_remove(c, pos))
        } else {
            (s, c)
        };
        if k.ready(k.prio(t) as int) as int == l {
            (
                crate::tasks::insert_before_cursor(s1, c1, x),
                crate::list::cursor_after_insert(c1, if c1 < 0 { s1.len() as int } else { c1 }),
            )
        } else {
            (s1, c1)
        }
    }
}

/// One more pending task moved: its state item left list `l0` (store
/// `kb`), its event item the pending list (store `kc`), and it joined its
/// ready list (store `kd`).
proof fn lemma_ready_move_step(
    k0: &Kernel,
    p: Seq<ItemHandle>,
    i: int,
    ka: &Kernel,
    kb: &Kernel,
    kc: &Kernel,
    kd: &Kernel,
    t: int,
    l0: int,
)
    requires
        k0.wf(),
        p == k0.store.seq(k0.pending_ready_list as int),
        0 <= i < p.len(),
        0 <= t < k0.tasks@.len(),
        k0.owner_of(p[i] as int) == t,
        ka.store.num_lists() == k0.store.num_lists(),
        0 <= l0 < k0.store.num_lists(),
        k0.store.container(k0.st(t) as int) == Some(l0 as usize),
        forall|q: int|
            0 <= q < configMAX_PRIORITIES ==> {
                let l = #[trigger] k0.ready(q) as int;
                ka.store.seq(l) == ready_after_moves(k0, p.take(i), l).0 && ka.store.cursor(l)
                    == ready_after_moves(k0, p.take(i), l).1
            },
        kb.store.seq(l0) == ka.store.seq(l0).remove(position_in(ka.store.seq(l0), k0.st(t))),
        kb.store.cursor(l0) == cursor_after_remove(ka.store.cursor(l0), position_in(ka.store.seq(l0), k0.st(t))),
        kb.store.frame(&ka.store, l0, k0.st(t) as int),
        kc.store.frame(&kb.store, k0.pending_ready_list as int, k0.ev(t) as int),
        ({
            let target = k0.ready(k0.prio(t) as int) as int;
            &&& kd.store.seq(target) == crate::tasks::insert_before_cursor(
                kc.store.seq(target),
                kc.store.cursor(target),
                k0.st(t),
            )
            &&& kd.store.cursor(target) == crate::list::cursor_after_insert(
                kc.store.cursor(target),
                if kc.store.cursor(target) < 0 {
                    kc.store.seq(target).len() as int
                } else {
                    kc.store.cursor(target)
                },
            )
            &&& kd.store.frame(&kc.store, target, k0.st(t) as int)
        }),
    ensures
        forall|q: int|
            0 <= q < configMAX_PRIORITIES ==> {
                let l = #[trigger] k0.ready(q) as int;
                kd.store.seq(l) == ready_after_moves(k0, p.take(i + 1), l).0 && kd.store.cursor(l)
                    == ready_after_moves(k0, p.take(i + 1), l).1
            },
{
    let m0 = p.take(i);
    let m1 = p.take(i + 1);
    assert(m1.drop_last() =~= m0);
    assert(m1.last() == p[i]);
    k0.store.lemma_wf();
    assert(k0.lists_ok());
    assert(k0.tasks_ok());
    let x = k0.st(t);
    let target = k0.ready(k0.prio(t) as int) as int;
    assert(k0.ready_task_lists@[k0.prio(t) as int] == k0.ready(k0.prio(t) as int));
    assert(!k0.ready_task_lists@.contains(k0.pending_ready_list));
    assert forall|q: int| 0 <= q < configMAX_PRIORITIES implies {
        let l = #[trigger] k0.ready(q) as int;
        kd.store.seq(l) == ready_after_moves(k0, m1, l).0 && kd.store.cursor(l) == ready_after_moves(k0, m1, l).1
    } by {
        let l = k0.ready(q) as int;
        assert(k0.ready_task_lists@[q] == k0.ready(q));
        assert(l != k0.pending_ready_list as int);
        assert(0 <= l < k0.store.num_lists());
        let s = ready_after_moves(k0, m0, l).0;
        let c = ready_after_moves(k0, m0, l).1;
        assert(ka.store.seq(l) == s && ka.store.cursor(l) == c);
        if l == l0 {
            assert(kb.store.seq(l) == s.remove(position_in(s, x)));
            assert(kb.store.cursor(l) == cursor_after_remove(c, position_in(s, x)));
        } else {
            assert(kb.store.seq(l) == ka.store.seq(l));
            assert(kb.store.cursor(l) == ka.store.cursor(l));
        }
        assert(kc.store.seq(l) == kb.store.seq(l));
        assert(kc.store.cursor(l) == kb.store.cursor(l));
        if l != target {
            assert(kd.store.seq(l) == kc.store.seq(l));
            assert(kd.store.cursor(l) == kc.store.cursor(l));
        }
    }
}

/// What moving the pending ready tasks does, taking `k0` to `k` with result
/// `r`: each task of the pending list goes to its ready list (before the
/// cursor, in the order of the pending list, when no such task's state item
/// was in a ready list), both its items leave the other lists, the top
/// ready priority and the pending yield take them into account, and
/// nothing else of the kernel changes.
pub open spec fn pending_moved(k0: Kernel, k: Kernel, r: bool) -> bool {
    let p = k0.store.seq(k0.pending_ready_list as int);
    &&& r == (p.len() > 0)
    &&& k.store.seq(k0.pending_ready_list as int).len() == 0
    &&& k.store.num_items() == k0.store.num_items()
    &&& k.store.num_lists() == k0.store.num_lists()
    &&& forall|y: int|
        0 <= y < k0.store.num_items() ==> #[trigger] k.store.container(y) == container_after_wake(&k0, p, y)
            && k.store.value(y) == k0.store.value(y) && k.store.owner(y) == k0.store.owner(y)
    &&& k.top_ready_priority == top_after_wake(&k0, p)
    &&& k.yield_pending == (k0.yield_pending || wakes_priority(&k0, p, k0.current_prio()))
    &&& others_without(&k0, &k, moved_items(&k0, p), -1)
    &&& forall|q: int|
        0 <= q < configMAX_PRIORITIES ==> {
            let l = #[trigger] k0.ready(q) as int;
            k.store.seq(l) == ready_after_moves(&k0, p, l).0 && k.store.cursor(l) == ready_after_moves(&k0, p, l).1
        }
    &&& k == (Kernel {
        store: k.store,
        top_ready_priority: k.top_ready_priority,
        yield_pending: k.yield_pending,
        ..k0
    })
}

/// Moves every task of the pending ready list to its ready list (its state
/// item leaves its state list, its event item the pending list) and marks a
/// yield pending when one of them has a priority of at least the running
/// task's.  Returns whether any task moved.
pub(crate) fn move_tasks_to_ready_list(k: &mut Kernel) -> (r: bool)
    requires
        old(k).wf(),
        old(k).store.seq(old(k).pending_ready_list as int).len() > 0 ==> old(k).current_tcb is Some,
    ensures
        final(k).wf(),
        pending_moved(*old(k), *final(k), r),
{
    let ghost k0 = *old(k);
    let ghost p = k0.store.seq(k0.pending_ready_list as int);
    let ghost cp = k0.current_prio();
    let ghost mut i: int = 0;
    let mut has_unblocked_task = false;
    proof {
        assert(p.take(0) =~= Seq::<ItemHandle>::empty());
        assert(p.skip(0) =~= p);
        lemma_others_start(&k0, -1);
        assert(moved_items(&k0, p.take(0)) =~= Set::<ItemHandle>::empty());
        assert(forall|q: int|
            0 <= q < configMAX_PRIORITIES ==> {
                let l = #[trigger] k0.ready(q) as int;
                k0.store.seq(l) == ready_after_moves(&k0, p.take(0), l).0 && k0.store.cursor(l)
                    == ready_after_moves(&k0, p.take(0), l).1
            });
    }
    while !list_is_empty(&k.store, k.pending_ready_list)
        invariant
            k0.wf(),
            p == k0.store.seq(k0.pending_ready_list as int),
            p.len() > 0 ==> k0.current_tcb is Some,
            cp == k0.current_prio(),
            k.wf(),
            0 <= i <= p.len(),
            k.store.seq(k0.pending_ready_list as int) == p.skip(i),
            k.store.num_items() == k0.store.num_items(),
            k.store.num_lists() == k0.store.num_lists(),
            forall|y: int|
                0 <= y < k0.store.num_items() ==> #[trigger] k.store.container(y) == container_after_wake(
                    &k0,
                    p.take(i),
                    y,
                ) && k.store.value(y) == k0.store.value(y) && k.store.owner(y) == k0.store.owner(y)
                    && k.store.is_end(y) == k0.store.is_end(y),
            k.top_ready_priority == top_after_wake(&k0, p.take(i)),
            k.yield_pending == (k0.yield_pending || wakes_priority(&k0, p.take(i), cp)),
            others_without(&k0, k, moved_items(&k0, p.take(i)), -1),
            forall|q: int|
                0 <= q < configMAX_PRIORITIES ==> {
                    let l = #[trigger] k0.ready(q) as int;
                    k.store.seq(l) == ready_after_moves(&k0, p.take(i), l).0 && k.store.cursor(l)
                        == ready_after_moves(&k0, p.take(i), l).1
                },
            has_unblocked_task == (i > 0),
            *k == (Kernel {
                store: k.store,
                top_ready_priority: k.top_ready_priority,
                yield_pending: k.yield_pending,
                ..k0
            }),
        decreases p.len() - i,
    {
        let ghost ka = *k;
        has_unblocked_task = true;
        proof {
            assert(ka.lists_ok());
            ka.store.lemma_wf();
            let x0 = ka.store.seq(ka.pending_ready_list as int)[0] as int;
            assert(ka.store.container(x0) == Some(ka.pending_ready_list));
            assert(!ka.store.is_end(x0));
            assert(ka.items_ok());
            assert(ka.store.owner(x0) is Some);
        }
        let t = get_owner_of_head_entry(&k.store, k.pending_ready_list);
        let task = TaskHandle(t);
        let ghost x = p[i];
        proof {
            assert(p.skip(i)[0] == x);
            assert(ka.store.owner(x as int) == Some(t));
            assert(0 <= t < ka.tasks@.len());
            assert(ka.store.container(x as int) == Some(ka.pending_ready_list));
            assert(x == ka.ev(t as int));
        }
        let event_list_item = task.get_event_list_item(k);
        let state_list_item = task.get_state_list_item(k);
        let ghost l0 = ka.store.container(state_list_item as int)->0 as int;
        proof {
            assert(ka.tasks_ok());
            assert(ka.st(t as int) < ka.store.num_items());
            assert(ka.placed_ok(t as int, -1));
            assert(ka.store.container(state_list_item as int) is Some);
            assert(0 <= l0 < ka.store.num_lists());
            assert(ka.is_state_list(l0));
            assert(l0 != ka.pending_ready_list);
            lemma_not_moved_yet(&k0, p, i, t as int);
            assert(ka.store.container(state_list_item as int) == container_after_wake(
                &k0,
                p.take(i),
                state_list_item as int,
            ));
            assert(ka.store.container(state_list_item as int) == k0.store.container(state_list_item as int));
        }
        list_remove(&mut k.store, state_list_item);
        let ghost kb = *k;
        let ghost g = moved_items(&k0, p.take(i));
        proof {
            lemma_store_step(&ka, &kb, -1, t as int, l0, state_list_item as int);
            if k0.ready_task_lists@.contains(l0 as usize) {
                lemma_others_frame(&k0, &ka, &kb, g, -1, l0, state_list_item as int);
                lemma_others_absent(&k0, &kb, g, -1, state_list_item);
            } else {
                lemma_others_remove(&k0, &ka, &kb, g, -1, state_list_item, l0);
            }
            assert(kb.store.seq(ka.pending_ready_list as int) == ka.store.seq(ka.pending_ready_list as int));
            assert(kb.store.container(event_list_item as int) == Some(ka.pending_ready_list));
            assert(kb.store.seq(ka.pending_ready_list as int).no_duplicates());
            assert(position_in_head(kb.store.seq(ka.pending_ready_list as int), event_list_item));
        }
        list_remove(&mut k.store, event_list_item);
        let ghost kc = *k;
        proof {
            lemma_store_step(&kb, &kc, t as int, t as int, ka.pending_ready_list as int, event_list_item as int);
            assert(kc.store.seq(ka.pending_ready_list as int) =~= p.skip(i + 1));
            assert(!k0.ready_task_lists@.contains(k0.pending_ready_list));
            lemma_others_remove(
                &k0,
                &kb,
                &kc,
                g.insert(state_list_item),
                -1,
                event_list_item,
                ka.pending_ready_list as int,
            );
        }
        let _ = task.add_task_to_ready_list(k);
        let ghost kd = *k;
        let cur = k.current_tcb.unwrap();
        if k.tasks[t].priority >= k.tasks[cur].priority {
            k.yield_pending = true;
        }
        proof {
            let rl = kc.ready(kc.prio(t as int) as int) as int;
            assert(kc.lists_ok());
            assert(kc.tasks_ok());
            assert(kc.ready_task_lists@[kc.prio(t as int) as int] == rl);
            lemma_others_frame(&k0, &kc, &kd, g.insert(state_list_item).insert(event_list_item), -1, rl, state_list_item as int);
            lemma_moved_items_push(&k0, p.take(i), p[i]);
            assert(p.take(i + 1) =~= p.take(i).push(p[i]));
            assert(k0.owner_of(p[i] as int) == t);
            assert(others_without(&k0, &kd, moved_items(&k0, p.take(i + 1)), -1));
            lemma_ready_move_step(&k0, p, i, &ka, &kb, &kc, &kd, t as int, l0);
            lemma_wake_step(&k0, p, i, &ka, &kb, &kc, &kd, t as int, l0);
            let m0 = p.take(i);
            let m1 = p.take(i + 1);
            assert(m1.drop_last() =~= m0);
            assert(m1.last() == x);
            assert(k0.owner_of(x as int) == t);
            assert(wakes_priority(&k0, m1, cp) == (wakes_priority(&k0, m0, cp) || k0.prio(t as int) >= cp)) by {
                if k0.prio(t as int) >= cp {
                    assert(m1[i] == x);
                    assert(k0.owner_prio(m1[i] as int) >= cp);
                }
                if wakes_priority(&k0, m0, cp) {
                    let j = choose|j: int| 0 <= j < m0.len() && #[trigger] k0.owner_prio(m0[j] as int) >= cp;
                    assert(m1[j] == m0[j]);
                    assert(k0.owner_prio(m1[j] as int) >= cp);
                }
                if wakes_priority(&k0, m1, cp) {
                    let j = choose|j: int| 0 <= j < m1.len() && #[trigger] k0.owner_prio(m1[j] as int) >= cp;
                    if j < i {
                        assert(m0[j] == m1[j]);
                        assert(k0.owner_prio(m0[j] as int) >= cp);
                    }
                }
            }
            lemma_counters_only(&kd, k);
            i = i + 1;
        }
    }
    proof {
        assert(p.skip(i).len() == 0);
        assert(i == p.len());
        assert(p.take(i) =~= p);
    }
    has_unblocked_task
}

/// `x % 2^32` moved one on, wrapping, is `(x + 1) % 2^32`.
proof fn lemma_tick_mod(t: TickType, x: int)
    requires
        x >= 0,
        t == x % 0x1_0000_0000,
    ensures
        t.wrapping_add(1) == (x + 1) % 0x1_0000_0000,
{
    vstd::arithmetic::div_mod::lemma_add_mod_noop(x, 1, 0x1_0000_0000);
    assert(1int % 0x1_0000_0000 == 1);
}

/// A change of the store that puts no item in the pending ready list keeps
/// it empty.
proof fn lemma_pending_stays_empty(k0: &Kernel, kt: &Kernel, k1: &Kernel, moved: Seq<ItemHandle>)
    requires
        k0.wf(),
        k1.wf(),
        k0.store.seq(k0.pending_ready_list as int).len() == 0,
        kt.store == k0.store,
        kt.tasks == k0.tasks,
        kt.ready_task_lists == k0.ready_task_lists,
        k1.pending_ready_list == k0.pending_ready_list,
        k1.store.num_items() == k0.store.num_items(),
        k1.store.num_lists() == k0.store.num_lists(),
        forall|y: int|
            0 <= y < k0.store.num_items() ==> #[trigger] k1.store.container(y) == container_after_wake(kt, moved, y),
    ensures
        k1.store.seq(k1.pending_ready_list as int).len() == 0,
{
    let l = k0.pending_ready_list;
    if k1.store.seq(l as int).len() > 0 {
        k1.store.lemma_wf();
        k0.store.lemma_wf();
        assert(k0.lists_ok());
        let x = k1.store.seq(l as int)[0] as int;
        assert(k1.store.container(x) == Some(l));
        assert(0 <= x < k0.store.num_items());
        let t = kt.owner_of(x);
        if !kt.store.is_end(x) && (moved.contains(kt.st(t)) || moved.contains(kt.ev(t))) {
            if x == kt.st(t) as int {
                assert(k0.items_ok());
                assert(k0.store.owner(x) is Some);
                assert(0 <= t < k0.tasks@.len());
                assert(k0.tasks_ok());
                assert(k0.st(t) < k0.store.num_items());
                let p = k0.prio(t) as int;
                assert(0 <= p < configMAX_PRIORITIES);
                assert(k0.ready_task_lists@[p] == k0.ready(p));
                assert(k0.ready_task_lists@.contains(k0.ready(p)));
            }
        } else {
            assert(k0.store.container(x) == Some(l));
            assert(k0.store.seq(l as int).contains(x as usize));
        }
    }
}

/// A tick leaves every task of a ready list where it is: the tasks it
/// wakes all come from the delayed list.
proof fn lemma_tick_keeps_ready(k0: &Kernel, k1: &Kernel)
    requires
        k0.wf(),
        k0.scheduler_suspended == 0,
        k1.store.num_items() == k0.store.num_items(),
        forall|y: int|
            0 <= y < k0.store.num_items() ==> #[trigger] k1.store.container(y) == container_after_wake(
                &ticked(*k0),
                woken(*k0),
                y,
            ),
    ensures
        forall|y: int|
            0 <= y < k0.store.num_items() && k0.store.container(y) is Some && k0.ready_task_lists@.contains(
                k0.store.container(y)->0,
            ) ==> #[trigger] k1.store.container(y) == k0.store.container(y),
{
    let kt = ticked(*k0);
    let dl = kt.delayed_task_list as int;
    let d = kt.store.seq(dl);
    let moved = woken(*k0);
    k0.store.lemma_wf();
    assert(k0.lists_ok());
    assert(0 <= dl < k0.store.num_lists());
    lemma_leading_due_stop(&kt.store, d, kt.tick_count);
    assert(moved.len() <= d.len());
    assert forall|j: int| 0 <= j < moved.len() implies #[trigger] k0.store.container(moved[j] as int) == Some(
        dl as usize,
    ) by {
        assert(moved[j] == d[j]);
    }
    assert forall|y: int|
        0 <= y < k0.store.num_items() && k0.store.container(y) is Some && k0.ready_task_lists@.contains(
            k0.store.container(y)->0,
        ) implies #[trigger] k1.store.container(y) == k0.store.container(y) by {
        let l = k0.store.container(y)->0;
        let t = kt.owner_of(y);
        assert(!k0.store.is_end(y)) by {
            assert(k0.store.seq(l as int).contains(y as usize));
        }
        assert(k0.items_ok());
        assert(k0.is_state_list(l as int));
        assert(y == k0.st(t));
        assert(l != dl);
        if moved.contains(kt.st(t)) {
            let j = choose|j: int| 0 <= j < moved.len() && moved[j] == kt.st(t);
            assert(k0.store.container(moved[j] as int) == Some(dl as usize));
        }
        if moved.contains(kt.ev(t)) {
            let j = choose|j: int| 0 <= j < moved.len() && moved[j] == kt.ev(t);
            assert(k0.store.container(moved[j] as int) == Some(dl as usize));
            assert(k0.tasks_ok());
            assert(k0.st(t) < k0.store.num_items());
            assert(k0.ev(t) != k0.st(t));
            assert(k0.is_state_list(dl));
        }
    }
}

/// One pended tick run: a tick of the running scheduler from `a`, then a
/// yield marked pending when that tick asked for a switch.
pub open spec fn pended_tick_step(a: Kernel, b: Kernel) -> bool {
    let m = Kernel { yield_pending: a.yield_pending, ..b };
    &&& tick_post(a, m, tick_switch(a, m))
    &&& b.yield_pending == (a.yield_pending || tick_switch(a, m))
}

/// `ks` runs the pended ticks of `a` one after the other and ends in `b`
/// (but for the count of pended ticks, which `b` has cleared).
pub open spec fn pended_run(ks: Seq<Kernel>, a: Kernel, b: Kernel) -> bool {
    &&& ks.len() == a.pended_ticks + 1
    &&& ks[0] == a
    &&& ks.last() == (Kernel { pended_ticks: a.pended_ticks, ..b })
    &&& forall|i: int| 0 <= i < ks.len() - 1 ==> #[trigger] pended_tick_step(ks[i], ks[i + 1])
}

/// Runs the ticks that came while the scheduler was suspended, marking a
/// yield pending when one of them requires a switch, and clears the count.
pub(crate) fn process_pended_ticks(k: &mut Kernel)
    requires
        old(k).wf(),
        old(k).scheduler_suspended == 0,
        old(k).current_tcb is Some,
    ensures
        final(k).wf(),
        final(k).pended_ticks == 0,
        final(k).tick_count == (old(k).tick_count + old(k).pended_ticks) % 0x1_0000_0000,
        old(k).yield_pending ==> final(k).yield_pending,
        old(k).pended_ticks == 0 ==> *final(k) == *old(k),
        old(k).store.seq(old(k).pending_ready_list as int).len() == 0 ==> final(k).store.seq(
            old(k).pending_ready_list as int,
        ).len() == 0,
        final(k).tasks == old(k).tasks,
        final(k).current_tcb == old(k).current_tcb,
        final(k).ready_task_lists == old(k).ready_task_lists,
        final(k).pending_ready_list == old(k).pending_ready_list,
        final(k).suspended_task_list == old(k).suspended_task_list,
        final(k).tasks_waiting_termination == old(k).tasks_waiting_termination,
        final(k).scheduler_suspended == old(k).scheduler_suspended,
        final(k).scheduler_running == old(k).scheduler_running,
        final(k).current_number_of_tasks == old(k).current_number_of_tasks,
        final(k).task_number == old(k).task_number,
        final(k).num_of_overflows == old(k).num_of_overflows,
        final(k).store.num_items() == old(k).store.num_items(),
        forall|y: int|
            0 <= y < old(k).store.num_items() && old(k).store.container(y) is Some
                && old(k).ready_task_lists@.contains(old(k).store.container(y)->0)
                ==> #[trigger] final(k).store.container(y) == old(k).store.container(y),
        exists|ks: Seq<Kernel>| pended_run(ks, *old(k), *final(k)),
{
    let ghost k0 = *old(k);
    let mut pended_counts = k.pended_ticks;
    let ghost mut ks: Seq<Kernel> = seq![k0];
    if pended_counts > 0 {
        proof {
            assert(k0.tick_count == (k0.tick_count + 0) % 0x1_0000_0000);
        }
        loop
            invariant_except_break
                pended_counts > 0,
            invariant
                k.wf(),
                pended_counts <= k0.pended_ticks,
                k.tick_count == (k0.tick_count + (k0.pended_ticks - pended_counts)) % 0x1_0000_0000,
                k0.yield_pending ==> k.yield_pending,
                k0.store.seq(k0.pending_ready_list as int).len() == 0 ==> k.store.seq(
                    k0.pending_ready_list as int,
                ).len() == 0,
                k.pended_ticks == k0.pended_ticks,
                k.tasks == k0.tasks,
                k.current_tcb == k0.current_tcb,
                k0.current_tcb is Some,
                k.ready_task_lists == k0.ready_task_lists,
                k.pending_ready_list == k0.pending_ready_list,
                k.suspended_task_list == k0.suspended_task_list,
                k.tasks_waiting_termination == k0.tasks_waiting_termination,
                k.scheduler_suspended == 0,
                k.scheduler_running == k0.scheduler_running,
                k.current_number_of_tasks == k0.current_number_of_tasks,
                k.task_number == k0.task_number,
                k.num_of_overflows == k0.num_of_overflows,
                k.store.num_items() == k0.store.num_items(),
                forall|y: int|
                    0 <= y < k0.store.num_items() && k0.store.container(y) is Some
                        && k0.ready_task_lists@.contains(k0.store.container(y)->0) ==> #[trigger] k.store.container(y)
                        == k0.store.container(y),
                ks.len() == k0.pended_ticks - pended_counts + 1,
                ks[0] == k0,
                ks.last() == *k,
                forall|i: int| 0 <= i < ks.len() - 1 ==> #[trigger] pended_tick_step(ks[i], ks[i + 1]),
            ensures
                pended_counts == 0,
            decreases pended_counts,
        {
            let ghost ka = *k;
            let switch = task_increment_tick(k);
            proof {
                lemma_tick_mod(ka.tick_count, k0.tick_count + (k0.pended_ticks - pended_counts));
                if ka.store.seq(ka.pending_ready_list as int).len() == 0 {
                    lemma_pending_stays_empty(&ka, &ticked(ka), k, woken(ka));
                }
                lemma_tick_keeps_ready(&ka, k);
                assert forall|y: int|
                    0 <= y < k0.store.num_items() && k0.store.container(y) is Some
                        && k0.ready_task_lists@.contains(k0.store.container(y)->0) implies #[trigger] k.store.container(y)
                        == k0.store.container(y) by {
                    assert(ka.store.container(y) == k0.store.container(y));
                }
            }
            let ghost kt = *k;
            if switch {
                k.yield_pending = true;
                proof {
                    lemma_counters_only(&kt, k);
                }
            }
            proof {
                let kn = *k;
                assert(kt == (Kernel { yield_pending: ka.yield_pending, ..kn }));
                assert(pended_tick_step(ka, kn));
                let ks0 = ks;
                ks = ks.push(kn);
                assert forall|i: int| 0 <= i < ks.len() - 1 implies #[trigger] pended_tick_step(ks[i], ks[i + 1]) by {
                    if i < ks0.len() - 1 {
                        assert(ks[i] == ks0[i] && ks[i + 1] == ks0[i + 1]);
                    } else {
                        assert(ks[i] == ka && ks[i + 1] == kn);
                    }
                }
            }
            pended_counts = pended_counts - 1;
            if pended_counts == 0 {
                break;
            }
        }
        let ghost kl = *k;
        k.pended_ticks = 0;
        proof {
            lemma_counters_only(&kl, k);
            assert(kl == (Kernel { pended_ticks: k0.pended_ticks, ..*k }));
            assert(pended_run(ks, k0, *k));
        }
    } else {
        proof {
            assert(pended_run(ks, k0, *k));
        }
    }
}

proof fn lemma_wakes_same(k0: &Kernel, k1: &Kernel, moved: Seq<ItemHandle>, p: UBaseType)
    requires
        k1.store == k0.store,
        k1.tasks == k0.tasks,
    ensures
        wakes_priority(k1, moved, p) == wakes_priority(k0, moved, p),
{
    if wakes_priority(k1, moved, p) {
        let j = choose|j: int| 0 <= j < moved.len() && #[trigger] k1.owner_prio(moved[j] as int) >= p;
        assert(k0.owner_prio(moved[j] as int) >= p);
    }
    if wakes_priority(k0, moved, p) {
        let j = choose|j: int| 0 <= j < moved.len() && #[trigger] k0.owner_prio(moved[j] as int) >= p;
        assert(k1.owner_prio(moved[j] as int) >= p);
    }
}

/// The stages of a resume that runs the scheduler again: from `k0` with the
/// suspension undone, the pending ready tasks move (`km`), the next
/// unblocking is recomputed when some moved (`kb`), and the pended ticks run
/// (`ks`) to give `kf`.
pub open spec fn resume_run(k0: Kernel, km: Kernel, kb: Kernel, ks: Seq<Kernel>, kf: Kernel) -> bool {
    let ka = Kernel { scheduler_suspended: 0, ..k0 };
    let p = k0.store.seq(k0.pending_ready_list as int);
    &&& pending_moved(ka, km, p.len() > 0)
    &&& kb == (if p.len() > 0 {
        Kernel { next_task_unblock_time: head_wake_time(&km), ..km }
    } else {
        km
    })
    &&& pended_run(ks, kb, kf)
}

/// Undoes one `task_suspend_all`.  When that resumes the scheduler and
/// there are tasks: the pending ready tasks go to their ready lists (the
/// next unblocking is then recomputed), the pended ticks are run, and the
/// result says whether a yield is pending, which the caller then performs.
/// Otherwise the result is false.
pub fn task_resume_all(k: &mut Kernel) -> (r: bool)
    requires
        old(k).wf(),
        old(k).scheduler_suspended > 0,
    ensures
        final(k).wf(),
        final(k).scheduler_suspended == old(k).scheduler_suspended - 1,
        (old(k).scheduler_suspended > 1 || old(k).current_number_of_tasks == 0) ==> !r && *final(k) == (
        Kernel { scheduler_suspended: (old(k).scheduler_suspended - 1) as UBaseType, ..*old(k) }),
        (old(k).scheduler_suspended == 1 && old(k).current_number_of_tasks > 0) ==> {
            let p = old(k).store.seq(old(k).pending_ready_list as int);
            &&& r == final(k).yield_pending
            &&& (old(k).yield_pending || wakes_priority(old(k), p, old(k).current_prio())) ==> r
            &&& final(k).store.seq(old(k).pending_ready_list as int).len() == 0
            &&& final(k).pended_ticks == 0
            &&& final(k).tick_count == (old(k).tick_count + old(k).pended_ticks) % 0x1_0000_0000
            &&& final(k).tasks == old(k).tasks
            &&& final(k).current_tcb == old(k).current_tcb
            &&& final(k).ready_task_lists == old(k).ready_task_lists
            &&& final(k).pending_ready_list == old(k).pending_ready_list
            &&& final(k).scheduler_running == old(k).scheduler_running
            &&& final(k).current_number_of_tasks == old(k).current_number_of_tasks
            &&& forall|j: int|
                0 <= j < p.len() ==> {
                    let t = old(k).owner_of(#[trigger] p[j] as int);
                    final(k).store.container(old(k).st(t) as int) == Some(old(k).ready(old(k).prio(t) as int))
                }
            &&& exists|km: Kernel, kb: Kernel, ks: Seq<Kernel>| resume_run(*old(k), km, kb, ks, *final(k))
        },
{
    let ghost k0 = *old(k);
    let mut already_yielded = false;
    k.scheduler_suspended = k.scheduler_suspended - 1;
    proof {
        lemma_counters_only(&k0, k);
    }
    if k.scheduler_suspended == 0 {
        if k.current_number_of_tasks > 0 {
            let ghost ka = *k;
            let moved = move_tasks_to_ready_list(k);
            let ghost km = *k;
            if moved {
                reset_next_task_unblock_time(k);
            }
            let ghost kb = *k;
            proof {
                assert(kb.store.seq(kb.pending_ready_list as int).len() == 0);
                assert(kb.yield_pending == (ka.yield_pending || wakes_priority(&ka, ka.store.seq(
                    ka.pending_ready_list as int), ka.current_prio())));
                lemma_wakes_same(&k0, &ka, k0.store.seq(k0.pending_ready_list as int), k0.current_prio());
            }
            proof {
                let p = k0.store.seq(k0.pending_ready_list as int);
                k0.store.lemma_wf();
                assert(k0.lists_ok());
                assert forall|j: int| 0 <= j < p.len() implies {
                    let t = k0.owner_of(#[trigger] p[j] as int);
                    &&& kb.store.container(k0.st(t) as int) == Some(k0.ready(k0.prio(t) as int))
                    &&& 0 <= k0.st(t) < k0.store.num_items()
                    &&& k0.ready_task_lists@.contains(k0.ready(k0.prio(t) as int))
                } by {
                    let x = p[j] as int;
                    let t = k0.owner_of(x);
                    assert(k0.store.container(x) == Some(k0.pending_ready_list));
                    assert(k0.items_ok());
                    assert(!k0.store.is_end(x));
                    assert(0 <= t < k0.tasks@.len());
                    assert(x == k0.ev(t));
                    assert(k0.tasks_ok());
                    assert(k0.st(t) < k0.store.num_items());
                    assert(ka.store.owner(k0.st(t) as int) == Some(t as usize));
                    assert(ka.owner_of(k0.st(t) as int) == t);
                    assert(p.contains(ka.ev(t)));
                    assert(kb.store.container(k0.st(t) as int) == container_after_wake(&ka, p, k0.st(t) as int));
                    assert(k0.ready_task_lists@[k0.prio(t) as int] == k0.ready(k0.prio(t) as int));
                }
            }
            process_pended_ticks(k);
            proof {
                assert(ka == (Kernel { scheduler_suspended: 0, ..k0 }));
                let ks = choose|ks: Seq<Kernel>| pended_run(ks, kb, *k);
                assert(resume_run(k0, km, kb, ks, *k));
                let p = k0.store.seq(k0.pending_ready_list as int);
                assert forall|j: int| 0 <= j < p.len() implies {
                    let t = k0.owner_of(#[trigger] p[j] as int);
                    k.store.container(k0.st(t) as int) == Some(k0.ready(k0.prio(t) as int))
                } by {
                    let t = k0.owner_of(p[j] as int);
                    assert(kb.store.container(k0.st(t) as int) == Some(k0.ready(k0.prio(t) as int)));
                }
            }
            if k.yield_pending {
                already_yielded = true;
            }
        }
    }
    already_yielded
}

/// Creates the idle task: priority 0, named "Idle", minimal stack.  Its
/// stack is set up through the port, which lays out no frame here, so the
/// creation fails with `PortError` and `k` is left as it was.
pub fn create_idle_task(k: &mut Kernel) -> (r: Result<TaskHandle, FreeRtosError>)
    ensures
        r == Err::<TaskHandle, FreeRtosError>(FreeRtosError::PortError),
        *final(k) == *old(k),
{
    let tcb = TaskControlBlock::new();
    let mut tcb = tcb.set_priority(0);
    tcb.set_name("Idle");
    proof {
        broadcast use vstd::layout::layout_of_primitives;
    }
    tcb.initialize(k, 0)
}

/// Starts the scheduler: creates the idle task, then sets up the
/// scheduler (no unblocking due, running, tick count zero) for the port
/// to start the tick.  The idle task's creation fails with `PortError` on
/// this port, and that error is returned with `k` left as it was.
pub fn task_start_scheduler(k: &mut Kernel) -> (r: Result<(), FreeRtosError>)
    ensures
        r == Err::<(), FreeRtosError>(FreeRtosError::PortError),
        *final(k) == *old(k),
{
    match create_idle_task(k) {
        Ok(_) => {},
        Err(e) => {
            return Err(e);
        },
    }
    initialize_scheduler(k);
    Ok(())
}

/// A nested suspension undone: with the scheduler already suspended,
/// `task_suspend_all` followed by `task_resume_all` gives back the
/// scheduler as it was, and asks for no yield.
pub proof fn law_nested_suspend_resume(k0: Kernel, k1: Kernel, k2: Kernel, r: bool)
    requires
        k0.scheduler_suspended > 0,
        k0.scheduler_suspended < UBaseType::MAX,
        k1 == (Kernel { scheduler_suspended: (k0.scheduler_suspended + 1) as UBaseType, ..k0 }),
        k1.scheduler_suspended > 1 ==> !r && k2 == (Kernel {
            scheduler_suspended: (k1.scheduler_suspended - 1) as UBaseType,
            ..k1
        }),
    ensures
        k2 == k0,
        !r,
{
}

/// Where `leading_due` stops: at the end, or at an item not yet due.
proof fn lemma_leading_due_stop(store: &ListStore, s: Seq<ItemHandle>, now: TickType)
    ensures
        leading_due(store, s, now) <= s.len(),
        forall|j: int| 0 <= j < leading_due(store, s, now) ==> store.value(#[trigger] s[j] as int) <= now,
        leading_due(store, s, now) < s.len() ==> store.value(s[leading_due(store, s, now) as int] as int) > now,
    decreases s.len(),
{
    if s.len() > 0 && store.value(s[0] as int) <= now {
        let t = s.drop_first();
        lemma_leading_due_stop(store, t, now);
        assert forall|j: int| 0 <= j < leading_due(store, s, now) implies store.value(#[trigger] s[j] as int) <= now by {
            if j > 0 {
                assert(s[j] == t[j - 1]);
            }
        }
        if leading_due(store, s, now) < s.len() {
            assert(s[leading_due(store, s, now) as int] == t[leading_due(store, t, now) as int]);
        }
    }
}

/// A tick leaves no task due in the delayed list: when that list (after
/// the tick's possible trade of lists) is sorted by wake time and the next
/// unblocking is not past the wake time of its head, every task still in
/// it wakes after the new tick count.
pub proof fn law_tick_leaves_no_due_task(k0: Kernel, k1: Kernel)
    requires
        k0.wf(),
        k0.scheduler_suspended == 0,
        ({
            let kt = ticked(k0);
            let d = kt.store.seq(kt.delayed_task_list as int);
            &&& sorted_values(kt.store.values(kt.delayed_task_list as int))
            &&& d.len() > 0 ==> k0.next_task_unblock_time <= k0.store.value(d[0] as int)
            &&& k1.tick_count == kt.tick_count
            &&& k1.delayed_task_list == kt.delayed_task_list
            &&& k1.store.seq(kt.delayed_task_list as int) == d.skip(woken(k0).len() as int)
            &&& forall|y: int| 0 <= y < k0.store.num_items() ==> #[trigger] k1.store.value(y) == k0.store.value(y)
        }),
    ensures
        forall|i: int|
            0 <= i < k1.store.seq(k1.delayed_task_list as int).len() ==> k1.store.value(
                #[trigger] k1.store.seq(k1.delayed_task_list as int)[i] as int,
            ) > k1.tick_count,
{
    let kt = ticked(k0);
    let dl = kt.delayed_task_list as int;
    let d = kt.store.seq(dl);
    let now = kt.tick_count;
    let n = woken(k0).len() as int;
    k0.store.lemma_wf();
    assert(k0.lists_ok());
    assert(0 <= dl < k0.store.num_lists());
    lemma_leading_due_stop(&kt.store, d, now);
    if now >= k0.next_task_unblock_time {
        assert(n == leading_due(&kt.store, d, now));
    } else {
        assert(n == 0);
    }
    assert forall|i: int| 0 <= i < k1.store.seq(k1.delayed_task_list as int).len() implies k1.store.value(
        #[trigger] k1.store.seq(k1.delayed_task_list as int)[i] as int,
    ) > k1.tick_count by {
        let x = d[n + i];
        assert(k1.store.seq(k1.delayed_task_list as int)[i] == x);
        assert(0 <= x < k0.store.num_items());
        assert(kt.store.values(dl)[n] <= kt.store.values(dl)[n + i]);
        if now < k0.next_task_unblock_time {
            assert(kt.store.values(dl)[0] <= kt.store.values(dl)[i]);
        }
    }
}

} // verus!
