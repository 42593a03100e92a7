//! The scheduler operations that queues and semaphores build on: blocking
//! on an event list, waking from it, and timeouts.
use vstd::prelude::*;
use crate::config::{BaseType, TickType, UBaseType, INCLUDE_vTaskSuspend, INCLUDE_xTaskAbortDelay, portMAX_DELAY};
use crate::list::{
    ItemHandle, cursor_after_insert, cursor_after_remove, first_greater, get_owner_of_head_entry, list_insert,
    list_insert_end, list_remove, position_in,
};
use crate::task_global::{Kernel, lemma_same_structure, lemma_store_step};
use crate::tasks::{
    TaskControlBlock, TaskHandle, add_current_task_to_delayed_list, head_wake_time, insert_before_cursor, max_prio,
    reset_next_task_unblock_time,
};

verus! {

/// When a wait started: the tick counter and its overflow count then.
#[allow(non_camel_case_types)]
#[derive(Clone, Copy, Default)]
pub struct time_out {
    pub overflow_count: BaseType,
    pub time_on_entering: TickType,
}

/// The task at the head of event list `l`.
pub open spec fn head_owner(k: &Kernel, l: int) -> int {
    k.owner_of(k.store.seq(l)[0] as int)
}

/// Wakes the task at the head of `event_list`: its event item leaves the
/// list; with the scheduler running the task moves to its ready list, with
/// the scheduler suspended its event item goes to the pending ready list.
/// Returns whether the woken task has a lower priority than the running one,
/// in which case a yield is marked pending (note the direction of the
/// comparison: a woken task of higher priority signals no yield).  The next unblocking time is
/// then recomputed.
#[verifier::rlimit(60)]
#[verifier::spinoff_prover]
pub fn task_remove_from_event_list(k: &mut Kernel, event_list: usize) -> (r: bool)
    requires
        old(k).wf(),
        event_list < old(k).store.num_lists(),
        !old(k).is_state_list(event_list as int),
        old(k).store.seq(event_list as int).len() > 0,
        old(k).current_tcb is Some,
    ensures
        final(k).wf(),
        ({
            let t = head_owner(old(k), event_list as int);
            &&& old(k).store.seq(event_list as int)[0] == old(k).ev(t)
            &&& r == (old(k).prio(t) < old(k).current_prio())
            &&& final(k).yield_pending == (old(k).yield_pending || r)
            &&& (event_list != old(k).pending_ready_list || old(k).scheduler_suspended != 0) ==>
                final(k).store.seq(event_list as int).contains(old(k).ev(t)) == (old(k).scheduler_suspended != 0
                && event_list == old(k).pending_ready_list)
            &&& old(k).scheduler_suspended == 0 ==> {
                let x = old(k).st(t);
                let l0 = old(k).store.container(x as int)->0 as int;
                let kpos = position_in(old(k).store.seq(l0), x);
                let target = old(k).ready(old(k).prio(t) as int) as int;
                &&& final(k).store.container(old(k).ev(t) as int) is None
                &&& final(k).store.seq(event_list as int) == old(k).store.seq(event_list as int).drop_first()
                &&& final(k).store.container(x as int) == Some(target as usize)
                &&& final(k).store.seq(target) == insert_before_cursor(
                    crate::tasks::seq_without(old(k), target, l0, kpos),
                    crate::tasks::cursor_without(old(k), target, l0, kpos),
                    x,
                )
                &&& final(k).top_ready_priority == max_prio(old(k).top_ready_priority, old(k).prio(t))
                &&& ({
                    let sw = crate::tasks::seq_without(old(k), target, l0, kpos);
                    let cw = crate::tasks::cursor_without(old(k), target, l0, kpos);
                    final(k).store.cursor(target) == cursor_after_insert(
                        cw,
                        if cw < 0 {
                            sw.len() as int
                        } else {
                            cw
                        },
                    )
                })
                &&& (l0 != target ==> final(k).store.seq(l0) == old(k).store.seq(l0).remove(kpos)
                    && final(k).store.cursor(l0) == cursor_after_remove(old(k).store.cursor(l0), kpos))
                &&& final(k).store.cursor(event_list as int) == cursor_after_remove(
                    old(k).store.cursor(event_list as int),
                    0,
                )
                &&& forall|l: int|
                    0 <= l < old(k).store.num_lists() && l != event_list && l != l0 && l != target
                        ==> #[trigger] final(k).store.seq(l) == old(k).store.seq(l) && final(k).store.cursor(l)
                        == old(k).store.cursor(l)
                &&& forall|y: int|
                    0 <= y < old(k).store.num_items() && y != old(k).ev(t) && y != x
                        ==> #[trigger] final(k).store.container(y) == old(k).store.container(y)
            }
            &&& old(k).scheduler_suspended != 0 ==> {
                let pl = old(k).pending_ready_list as int;
                let s1 = if event_list == pl {
                    old(k).store.seq(pl).drop_first()
                } else {
                    old(k).store.seq(pl)
                };
                let c1 = if event_list == pl {
                    cursor_after_remove(old(k).store.cursor(pl), 0)
                } else {
                    old(k).store.cursor(pl)
                };
                &&& final(k).store.container(old(k).ev(t) as int) == Some(old(k).pending_ready_list)
                &&& final(k).store.seq(pl) == insert_before_cursor(s1, c1, old(k).ev(t))
                &&& final(k).store.cursor(pl) == cursor_after_insert(
                    c1,
                    if c1 < 0 {
                        s1.len() as int
                    } else {
                        c1
                    },
                )
                &&& (event_list != pl ==> final(k).store.seq(event_list as int) == old(k).store.seq(
                    event_list as int,
                ).drop_first() && final(k).store.cursor(event_list as int) == cursor_after_remove(
                    old(k).store.cursor(event_list as int),
                    0,
                ))
                &&& forall|l: int|
                    0 <= l < old(k).store.num_lists() && l != event_list && l != pl
                        ==> #[trigger] final(k).store.seq(l) == old(k).store.seq(l)
                        && final(k).store.cursor(l) == old(k).store.cursor(l)
                &&& forall|y: int|
                    0 <= y < old(k).store.num_items() && y != old(k).ev(t) ==> #[trigger] final(k).store.container(y)
                        == old(k).store.container(y)
                &&& final(k).top_ready_priority == old(k).top_ready_priority
            }
            &&& final(k).next_task_unblock_time == head_wake_time(final(k))
        }),
        *final(k) == (Kernel {
            store: final(k).store,
            top_ready_priority: final(k).top_ready_priority,
            yield_pending: final(k).yield_pending,
            next_task_unblock_time: final(k).next_task_unblock_time,
            ..*old(k)
        }),
{
    let ghost k0 = *old(k);
    proof {
        k0.store.lemma_wf();
        let x0 = k0.store.seq(event_list as int)[0] as int;
        assert(k0.store.container(x0) == Some(event_list));
        assert(k0.store.owner(x0) is Some);
    }
    let unblocked = TaskHandle(get_owner_of_head_entry(&k.store, event_list));
    let t = unblocked.0;
    let ev = unblocked.get_event_list_item(k);
    proof {
        let x0 = k0.store.seq(event_list as int)[0] as int;
        assert(x0 != k0.st(t as int));
        assert(x0 == k0.ev(t as int));
        assert(k0.placed_ok(t as int, -1));
        assert(k0.store.container(k0.st(t as int) as int) is Some);
        assert(k0.store.seq(event_list as int).no_duplicates());
        assert(position_in(k0.store.seq(event_list as int), ev) == 0);
    }
    list_remove(&mut k.store, ev);
    let ghost k1 = *k;
    proof {
        lemma_store_step(&k0, &k1, -1, -1, event_list as int, ev as int);
        assert(k0.store.seq(event_list as int).remove(0) =~= k0.store.seq(event_list as int).drop_first());
        assert(k0.tasks_ok());
        assert(k0.st(t as int) < k0.store.num_items());
        assert(k1.store.container(k0.st(t as int) as int) is Some);
    }
    if k.scheduler_suspended == 0 {
        let st = unblocked.get_state_list_item(k);
        let ghost l0 = k1.store.container(st as int)->0 as int;
        proof {
            assert(k1.tasks_ok());
            assert(st < k1.store.num_items());
            assert(k1.store.container(st as int) is Some);
            k1.store.lemma_wf();
            assert(0 <= l0 < k1.store.num_lists());
            assert(k1.is_state_list(l0));
        }
        list_remove(&mut k.store, st);
        let ghost k2 = *k;
        proof {
            lemma_store_step(&k1, &k2, -1, t as int, l0, st as int);
        }
        let _ = unblocked.add_task_to_ready_list(k);
        proof {
            let k3 = *k;
            let target = k0.ready(k0.prio(t as int) as int) as int;
            assert(k2.ready(k2.prio(t as int) as int) as int == target);
            assert(k1.store.seq(target) == k0.store.seq(target));
            assert(k1.store.cursor(target) == k0.store.cursor(target));
            assert(k1.store.seq(l0) == k0.store.seq(l0));
            assert(k1.store.container(st as int) == k0.store.container(st as int));
            assert(k3.store.seq(event_list as int) == k1.store.seq(event_list as int));
            assert(k3.store.container(ev as int) == k1.store.container(ev as int));
            assert(k1.store.cursor(l0) == k0.store.cursor(l0));
            assert(k2.store.seq(event_list as int) == k1.store.seq(event_list as int));
            assert(k2.store.cursor(event_list as int) == k1.store.cursor(event_list as int));
            assert(k3.store.cursor(event_list as int) == k2.store.cursor(event_list as int));
            if l0 != target {
                assert(k3.store.seq(l0) == k2.store.seq(l0));
                assert(k3.store.cursor(l0) == k2.store.cursor(l0));
            }
            assert forall|l: int|
                0 <= l < k0.store.num_lists() && l != event_list && l != l0 && l != target implies #[trigger] k3.store.seq(
                    l,
                ) == k0.store.seq(l) && k3.store.cursor(l) == k0.store.cursor(l) by {
                assert(k1.store.seq(l) == k0.store.seq(l));
                assert(k2.store.seq(l) == k1.store.seq(l));
                assert(k3.store.seq(l) == k2.store.seq(l));
            }
            assert forall|y: int| 0 <= y < k0.store.num_items() && y != ev && y != st implies #[trigger] k3.store.container(
                y,
            ) == k0.store.container(y) by {
                assert(k1.store.container(y) == k0.store.container(y));
                assert(k2.store.container(y) == k1.store.container(y));
            }
        }
    } else {
        let pl = k.pending_ready_list;
        list_insert_end(&mut k.store, pl, ev);
        proof {
            let k2 = *k;
            lemma_store_step(&k1, &k2, -1, -1, pl as int, ev as int);
            k2.store.lemma_wf();
            if event_list != pl {
                assert(k2.store.seq(event_list as int) == k1.store.seq(event_list as int));
                assert(!k2.store.seq(event_list as int).contains(ev)) by {
                    if k2.store.seq(event_list as int).contains(ev) {
                        let i = choose|i: int| 0 <= i < k2.store.seq(event_list as int).len()
                            && k2.store.seq(event_list as int)[i] == ev;
                        assert(k2.store.container(k2.store.seq(event_list as int)[i] as int) == Some(event_list));
                    }
                }
            }
            let c = k1.store.cursor(pl as int);
            let s = k1.store.seq(pl as int);
            let p = if c < 0 { s.len() as int } else { c };
            assert(k2.store.seq(pl as int)[p] == ev);
            assert(k0.lists_ok());
            if event_list != pl {
                assert(k1.store.seq(pl as int) == k0.store.seq(pl as int));
                assert(k1.store.cursor(pl as int) == k0.store.cursor(pl as int));
                assert(k2.store.cursor(event_list as int) == k1.store.cursor(event_list as int));
            }
            assert forall|l: int| 0 <= l < k0.store.num_lists() && l != event_list && l != pl implies #[trigger] k2.store.seq(
                l,
            ) == k0.store.seq(l) && k2.store.cursor(l) == k0.store.cursor(l) by {
                assert(k1.store.seq(l) == k0.store.seq(l));
                assert(k2.store.seq(l) == k1.store.seq(l));
            }
            assert forall|y: int| 0 <= y < k0.store.num_items() && y != ev implies #[trigger] k2.store.container(y)
                == k0.store.container(y) by {
                assert(k1.store.container(y) == k0.store.container(y));
            }
        }
    }
    let mut ret: bool = false;
    let cur = k.current_tcb.unwrap();
    if k.tasks[t].priority < k.tasks[cur].priority {
        ret = true;
        k.yield_pending = true;
    } else {
        ret = false;
    }
    let ghost k4 = *k;
    proof {
        assert forall|u: int| 0 <= u < k4.tasks@.len() implies #[trigger] k4.st(u) == k0.st(u) && k4.ev(u) == k0.ev(u)
            && k4.prio(u) == k0.prio(u) by {}
        assert(k4.inv(-1)) by {
            let kb = Kernel { yield_pending: k0.yield_pending, ..k4 };
            assert(kb.inv(-1));
            lemma_same_structure(&kb, &k4, -1);
        }
    }
    reset_next_task_unblock_time(k);
    proof {
        let kf = *k;
        assert(kf.store == k4.store);
    }
    ret
}

/// Marks that no yield is pending.  Note that the flag is cleared here,
/// not raised.
pub fn task_missed_yield(k: &mut Kernel)
    ensures
        *final(k) == (Kernel { yield_pending: false, ..*old(k) }),
{
    k.yield_pending = false;
}

/// Records the current tick count and its overflow count as the start of a
/// wait.
pub fn task_set_timeout_state(k: &Kernel, timeout: &mut time_out)
    ensures
        final(timeout).overflow_count == k.num_of_overflows,
        final(timeout).time_on_entering == k.tick_count,
{
    timeout.overflow_count = k.num_of_overflows;
    timeout.time_on_entering = k.tick_count;
}

/// The ticks elapsed since a wait started (wrapping).
pub open spec fn elapsed(k: &Kernel, timeout: time_out) -> TickType {
    k.tick_count.wrapping_sub(timeout.time_on_entering)
}

/// The wait times out when the tick counter overflowed since it started
/// and has reached its start again, or when at least `ticks_to_wait` ticks
/// passed.
pub open spec fn timed_out(k: &Kernel, timeout: time_out, ticks_to_wait: TickType) -> bool {
    if k.num_of_overflows != timeout.overflow_count && k.tick_count >= timeout.time_on_entering {
        true
    } else {
        !(elapsed(k, timeout) < ticks_to_wait)
    }
}

/// Checks a wait that started at `timeout` and may last `ticks_to_wait`
/// ticks.  Returns true when it timed out; otherwise takes the elapsed ticks
/// off `ticks_to_wait`, restarts `timeout` now and returns false.  An
/// aborted delay of the running task is cleared.  The result comes from the
/// overflow and elapsed-time test alone: the outcomes that an aborted delay
/// and a wait forever set first are overwritten by that test.
pub fn task_check_for_timeout(k: &mut Kernel, timeout: &mut time_out, ticks_to_wait: &mut TickType) -> (r: bool)
    requires
        old(k).wf(),
        old(k).current_tcb is Some,
    ensures
        final(k).wf(),
        r == timed_out(old(k), *old(timeout), *old(ticks_to_wait)),
        r ==> *final(ticks_to_wait) == *old(ticks_to_wait) && *final(timeout) == *old(timeout),
        !r ==> *final(ticks_to_wait) == *old(ticks_to_wait) - elapsed(old(k), *old(timeout))
            && final(timeout).overflow_count == old(k).num_of_overflows
            && final(timeout).time_on_entering == old(k).tick_count,
        ({
            let c = old(k).current_tcb->0 as int;
            &&& final(k).tasks@.len() == old(k).tasks@.len()
            &&& final(k).tasks@[c] == (TaskControlBlock {
                delay_aborted: old(k).tasks@[c].delay_aborted && !INCLUDE_xTaskAbortDelay,
                ..old(k).tasks@[c]
            })
            &&& forall|u: int| 0 <= u < old(k).tasks@.len() && u != c ==> #[trigger] final(k).tasks@[u] == old(k).tasks@[u]
        }),
        *final(k) == (Kernel { tasks: final(k).tasks, ..*old(k) }),
{
    let ghost k0 = *old(k);
    let mut ret: bool = false;
    let const_tick_count: TickType = k.tick_count;
    let cur = k.current_tcb.unwrap();
    let cfglock1 = INCLUDE_xTaskAbortDelay;
    let cfglock2 = INCLUDE_vTaskSuspend;
    if cfglock1 && k.tasks[cur].delay_aborted {
        k.tasks[cur].delay_aborted = false;
        ret = true;
    }
    if cfglock2 && *ticks_to_wait == portMAX_DELAY {
        ret = false;
    }
    if k.num_of_overflows != timeout.overflow_count && const_tick_count >= timeout.time_on_entering {
        ret = true;
    } else if const_tick_count.wrapping_sub(timeout.time_on_entering) < *ticks_to_wait {
        *ticks_to_wait = *ticks_to_wait - const_tick_count.wrapping_sub(timeout.time_on_entering);
        task_set_timeout_state(k, timeout);
        ret = false;
    } else {
        ret = true;
    }
    proof {
        let k1 = *k;
        assert forall|u: int| 0 <= u < k0.tasks@.len() implies #[trigger] k1.st(u) == k0.st(u) && k1.ev(u) == k0.ev(u)
            && k1.prio(u) == k0.prio(u) by {}
        lemma_same_structure(&k0, &k1, -1);
        assert forall|u: int| 0 <= u < k0.tasks@.len() && u != cur implies #[trigger] k1.tasks@[u] == k0.tasks@[u] by {}
    }
    ret
}

/// The running task's event item put into `event_list` at its place by
/// value, nothing else of `k0` changed: the first step of placing the task
/// on an event list.
pub open spec fn event_placed(k0: Kernel, k: Kernel, event_list: int) -> bool {
    let e = k0.ev(k0.current_tcb->0 as int);
    let pos = first_greater(k0.store.values(event_list), k0.store.value(e as int)) as int;
    &&& k.store.container(e as int) == Some(event_list as usize)
    &&& k.store.seq(event_list) == k0.store.seq(event_list).insert(pos, e)
    &&& k.store.cursor(event_list) == cursor_after_insert(k0.store.cursor(event_list), pos)
    &&& k.store.frame(&k0.store, event_list, e as int)
    &&& k == (Kernel { store: k.store, ..k0 })
}

/// Puts the running task's event item in `event_list`, sorted by value,
/// and delays the task for `ticks_to_wait` (forever allowed).
pub fn task_place_on_event_list(k: &mut Kernel, event_list: usize, ticks_to_wait: TickType)
    requires
        old(k).wf(),
        event_list < old(k).store.num_lists(),
        !old(k).is_state_list(event_list as int),
        old(k).current_tcb is Some,
        old(k).store.container(old(k).ev(old(k).current_tcb->0 as int) as int) is None,
    ensures
        final(k).wf(),
        ({
            let t = old(k).current_tcb->0 as int;
            let e = old(k).ev(t);
            &&& final(k).store.container(e as int) == Some(event_list)
            &&& final(k).store.seq(event_list as int) == old(k).store.seq(event_list as int).insert(
                first_greater(old(k).store.values(event_list as int), old(k).store.value(e as int)) as int,
                e,
            )
            &&& final(k).store.cursor(event_list as int) == cursor_after_insert(
                old(k).store.cursor(event_list as int),
                first_greater(old(k).store.values(event_list as int), old(k).store.value(e as int)) as int,
            )
            &&& final(k).store.container(old(k).st(t) as int) == Some(
                crate::tasks::delay_target(old(k), ticks_to_wait, true),
            )
            &&& (!crate::tasks::delay_forever(ticks_to_wait, true) ==> final(k).store.value(old(k).st(t) as int)
                == crate::tasks::wake_time(old(k), ticks_to_wait))
            &&& final(k).next_task_unblock_time == ({
                let time = crate::tasks::wake_time(old(k), ticks_to_wait);
                if !crate::tasks::delay_forever(ticks_to_wait, true) && time >= old(k).tick_count && time
                    < old(k).next_task_unblock_time {
                    time
                } else {
                    old(k).next_task_unblock_time
                }
            })
            &&& final(k).tasks@.len() == old(k).tasks@.len()
            &&& forall|u: int| 0 <= u < old(k).tasks@.len() && u != t ==> #[trigger] final(k).tasks@[u] == old(k).tasks@[u]
        }),
        *final(k) == (Kernel {
            store: final(k).store,
            tasks: final(k).tasks,
            next_task_unblock_time: final(k).next_task_unblock_time,
            ..*old(k)
        }),
        exists|km: Kernel|
            event_placed(*old(k), km, event_list as int) && crate::tasks::delay_post(
                km,
                *final(k),
                ticks_to_wait,
                true,
            ),
{
    let ghost k0 = *old(k);
    let cur = TaskHandle(k.current_tcb.unwrap());
    let ev = cur.get_event_list_item(k);
    proof {
        assert(k0.tasks_ok());
        assert(k0.store.owner(ev as int) == Some(cur.0));
        assert(ev != k0.st(cur.0 as int));
        assert(k0.placed_ok(cur.0 as int, -1));
        assert(k0.store.container(k0.st(cur.0 as int) as int) is Some);
    }
    list_insert(&mut k.store, event_list, ev);
    let ghost k1 = *k;
    proof {
        lemma_store_step(&k0, &k1, -1, -1, event_list as int, ev as int);
    }
    add_current_task_to_delayed_list(k, ticks_to_wait, true);
    proof {
        let k2 = *k;
        let t = cur.0 as int;
        assert(k1.delayed_task_list == k0.delayed_task_list);
        assert(crate::tasks::delay_target(&k1, ticks_to_wait, true) == crate::tasks::delay_target(&k0, ticks_to_wait, true));
        let target = crate::tasks::delay_target(&k1, ticks_to_wait, true) as int;
        assert(k1.is_state_list(target));
        let x = k1.st(t);
        let l0 = k1.store.container(x as int)->0 as int;
        k1.store.lemma_wf();
        assert(k1.is_state_list(l0));
        assert(k2.store.seq(event_list as int) == k1.store.seq(event_list as int));
        assert(ev < k1.store.num_items());
        assert(ev != x);
        assert(k2.store.value(ev as int) == k1.store.value(ev as int));
        assert(k2.store.container(ev as int) == k1.store.container(ev as int));
        assert(k2.store.cursor(event_list as int) == k1.store.cursor(event_list as int));
        assert(crate::tasks::wake_time(&k1, ticks_to_wait) == crate::tasks::wake_time(&k0, ticks_to_wait));
        assert(event_placed(k0, k1, event_list as int));
        assert(crate::tasks::delay_post(k1, k2, ticks_to_wait, true));
    }
}

/// Counts one more mutex held by the running task and returns it; returns
/// `None` when there is no running task.
pub fn task_increment_mutex_held_count(k: &mut Kernel) -> (r: Option<TaskHandle>)
    requires
        old(k).wf(),
        old(k).current_tcb matches Some(c) ==> old(k).tasks@[c as int].mutexed_held < UBaseType::MAX,
    ensures
        final(k).wf(),
        r == (match old(k).current_tcb {
            Some(c) => Some(TaskHandle(c)),
            None => None,
        }),
        final(k).tasks@.len() == old(k).tasks@.len(),
        old(k).current_tcb matches Some(c) ==> final(k).tasks@[c as int] == (TaskControlBlock {
            mutexed_held: (old(k).tasks@[c as int].mutexed_held + 1) as UBaseType,
            ..old(k).tasks@[c as int]
        }),
        forall|u: int|
            0 <= u < old(k).tasks@.len() && Some(u as usize) != old(k).current_tcb ==> #[trigger] final(k).tasks@[u]
                == old(k).tasks@[u],
        *final(k) == (Kernel { tasks: final(k).tasks, ..*old(k) }),
{
    let ghost k0 = *old(k);
    match k.current_tcb {
        Some(c) => {
            let new_val = k.tasks[c].mutexed_held + 1;
            k.tasks[c].mutexed_held = new_val;
            proof {
                let k1 = *k;
                assert forall|u: int| 0 <= u < k0.tasks@.len() implies #[trigger] k1.st(u) == k0.st(u) && k1.ev(u) == k0.ev(u)
                    && k1.prio(u) == k0.prio(u) by {}
                lemma_same_structure(&k0, &k1, -1);
            }
            Some(TaskHandle(c))
        },
        None => None,
    }
}

} // verus!
