//! The scheduler's state: its lists, its tasks and its counters.
use vstd::prelude::*;
use crate::config::{BaseType, TickType, UBaseType, configMAX_PRIORITIES};
use crate::list::{ListHandle, ListStore, vListInitialise};
use crate::tasks::TaskControlBlock;

verus! {

/// Everything the scheduler keeps: the store of list items and lists, the
/// task control blocks (a task is its index), the state lists, the running
/// task and the counters.
pub struct Kernel {
    pub store: ListStore,
    pub tasks: Vec<TaskControlBlock>,
    pub ready_task_lists: Vec<ListHandle>,
    pub delayed_task_list: ListHandle,
    pub overflow_delayed_task_list: ListHandle,
    pub pending_ready_list: ListHandle,
    pub tasks_waiting_termination: ListHandle,
    pub suspended_task_list: ListHandle,
    pub current_tcb: Option<usize>,
    pub tick_count: TickType,
    pub top_ready_priority: UBaseType,
    pub pended_ticks: UBaseType,
    pub scheduler_running: bool,
    pub yield_pending: bool,
    /// The count of tick-counter overflows.  No operation of this kernel
    /// raises it, so the overflow case of the timeout test is met only when
    /// a caller sets it.
    pub num_of_overflows: BaseType,
    pub task_number: UBaseType,
    pub next_task_unblock_time: TickType,
    pub current_number_of_tasks: UBaseType,
    pub scheduler_suspended: UBaseType,
    pub deleted_tasks_waiting_clean_up: UBaseType,
    pub task_switched_in_time: u32,
    pub total_run_time: u32,
}

impl Kernel {
    /// The state item of task `t`.
    pub open spec fn st(&self, t: int) -> usize {
        self.tasks@[t].state_list_item
    }

    /// The event item of task `t`.
    pub open spec fn ev(&self, t: int) -> usize {
        self.tasks@[t].event_list_item
    }

    /// The priority of task `t`.
    pub open spec fn prio(&self, t: int) -> UBaseType {
        self.tasks@[t].priority
    }

    /// The ready list of priority `p`.
    pub open spec fn ready(&self, p: int) -> ListHandle {
        self.ready_task_lists@[p]
    }

    /// `l` is a list of task states: a ready list, a delayed list, the
    /// suspended list or the list of tasks waiting for deletion.
    pub open spec fn is_state_list(&self, l: int) -> bool {
        ||| self.ready_task_lists@.contains(l as usize)
        ||| l == self.delayed_task_list
        ||| l == self.overflow_delayed_task_list
        ||| l == self.suspended_task_list
        ||| l == self.tasks_waiting_termination
    }

    /// The owner of item `x` (meaningful for a task's item).
    pub open spec fn owner_of(&self, x: int) -> int {
        self.store.owner(x)->0 as int
    }

    /// The priority of the owner of item `x`.
    pub open spec fn owner_prio(&self, x: int) -> UBaseType {
        self.prio(self.owner_of(x))
    }

    /// The running task's priority.
    pub open spec fn current_prio(&self) -> UBaseType {
        self.prio(self.current_tcb->0 as int)
    }

    /// The scheduler's own lists exist and are distinct.
    pub open spec fn lists_ok(&self) -> bool {
        let n = self.store.num_lists();
        &&& self.ready_task_lists@.len() == configMAX_PRIORITIES
        &&& forall|p: int| 0 <= p < configMAX_PRIORITIES ==> #[trigger] self.ready(p) < n
        &&& forall|p: int, q: int|
            0 <= p < configMAX_PRIORITIES && 0 <= q < configMAX_PRIORITIES && p != q ==> #[trigger] self.ready(p)
                != #[trigger] self.ready(q)
        &&& self.delayed_task_list < n
        &&& self.overflow_delayed_task_list < n
        &&& self.pending_ready_list < n
        &&& self.tasks_waiting_termination < n
        &&& self.suspended_task_list < n
        &&& !self.ready_task_lists@.contains(self.delayed_task_list)
        &&& !self.ready_task_lists@.contains(self.overflow_delayed_task_list)
        &&& !self.ready_task_lists@.contains(self.pending_ready_list)
        &&& !self.ready_task_lists@.contains(self.tasks_waiting_termination)
        &&& !self.ready_task_lists@.contains(self.suspended_task_list)
        &&& self.delayed_task_list != self.overflow_delayed_task_list
        &&& self.delayed_task_list != self.pending_ready_list
        &&& self.delayed_task_list != self.tasks_waiting_termination
        &&& self.delayed_task_list != self.suspended_task_list
        &&& self.overflow_delayed_task_list != self.pending_ready_list
        &&& self.overflow_delayed_task_list != self.tasks_waiting_termination
        &&& self.overflow_delayed_task_list != self.suspended_task_list
        &&& self.pending_ready_list != self.tasks_waiting_termination
        &&& self.pending_ready_list != self.suspended_task_list
        &&& self.tasks_waiting_termination != self.suspended_task_list
    }

    /// Every task's two items exist and are owned by it.
    pub open spec fn tasks_ok(&self) -> bool {
        &&& self.tasks@.len() < usize::MAX
        &&& forall|t: int|
            0 <= t < self.tasks@.len() ==> {
                &&& #[trigger] self.st(t) < self.store.num_items()
                &&& self.ev(t) < self.store.num_items()
                &&& self.st(t) != self.ev(t)
                &&& !self.store.is_end(self.st(t) as int)
                &&& !self.store.is_end(self.ev(t) as int)
                &&& self.store.owner(self.st(t) as int) == Some(t as usize)
                &&& self.store.owner(self.ev(t) as int) == Some(t as usize)
                &&& self.prio(t) < configMAX_PRIORITIES
            }
    }

    /// Every item but the end markers is a task's item; state items are
    /// exactly the items of the state lists, and the pending list holds
    /// event items.
    pub open spec fn items_ok(&self) -> bool {
        &&& forall|x: int|
            0 <= x < self.store.num_items() && !self.store.is_end(x) ==> {
                let t = self.owner_of(x);
                &&& (#[trigger] self.store.owner(x)) is Some
                &&& 0 <= t < self.tasks@.len()
                &&& (x == self.st(t) || x == self.ev(t))
            }
        &&& forall|x: int|
            0 <= x < self.store.num_items() && (#[trigger] self.store.container(x)) is Some ==> (x
                == self.st(self.owner_of(x)) <==> self.is_state_list(
                self.store.container(x)->0 as int,
            ))
        &&& forall|x: int|
            0 <= x < self.store.num_items() && #[trigger] self.store.container(x) == Some(
                self.pending_ready_list,
            ) ==> x == self.ev(self.owner_of(x))
    }

    /// Task `t`'s state item is in a list, but when `t` is `detached`
    /// (then it is in none) or when `t` has left the scheduler: neither of
    /// its items is in a list and it is not the running task.
    pub open spec fn placed_ok(&self, t: int, detached: int) -> bool {
        if t == detached {
            self.store.container(self.st(t) as int) is None
        } else {
            ||| self.store.container(self.st(t) as int) is Some
            ||| (self.store.container(self.ev(t) as int) is None && self.current_tcb != Some(t as usize))
        }
    }

    /// Every task is placed as `placed_ok` says.
    pub open spec fn alive_ok(&self, detached: int) -> bool {
        forall|t: int| 0 <= t < self.tasks@.len() ==> #[trigger] self.placed_ok(t, detached)
    }

    /// The scheduler state is consistent, task `detached` (if in range)
    /// being between two state lists; some task runs whenever there are
    /// tasks.
    pub open spec fn inv(&self, detached: int) -> bool {
        &&& self.store.wf()
        &&& self.lists_ok()
        &&& self.tasks_ok()
        &&& self.items_ok()
        &&& self.alive_ok(detached)
        &&& (self.current_tcb matches Some(c) ==> c < self.tasks@.len())
        &&& (self.current_number_of_tasks > 0 ==> self.current_tcb is Some)
        &&& self.top_ready_priority < configMAX_PRIORITIES
    }

    /// The scheduler state is consistent.
    pub open spec fn wf(&self) -> bool {
        self.inv(-1)
    }
}


/// A store whose lists are all empty and whose items are all end markers.
pub open spec fn fresh_store(store: &ListStore) -> bool {
    &&& store.wf()
    &&& store.num_items() == store.num_lists()
    &&& forall|l: int| 0 <= l < store.num_lists() ==> (#[trigger] store.seq(l).len()) == 0 && store.cursor(l) == -1
    &&& forall|x: int| 0 <= x < store.num_items() ==> (#[trigger] store.is_end(x)) && store.container(x) is None
}

/// Adds an empty list to a fresh store.
fn fresh_list(store: &mut ListStore) -> (l: ListHandle)
    requires
        fresh_store(old(store)),
        old(store).num_lists() < 13,
    ensures
        fresh_store(final(store)),
        l == old(store).num_lists(),
        final(store).num_lists() == old(store).num_lists() + 1,
{
    let ghost o = *old(store);
    proof {
        assert(fresh_store(&o));
        assert(forall|x: int| 0 <= x < o.num_items() ==> (#[trigger] o.is_end(x)) && o.container(x) is None);
    }
    let l = vListInitialise(store);
    proof {
        assert forall|x: int| 0 <= x < store.num_items() implies (#[trigger] store.is_end(x)) && store.container(x) is None by {
            if x < o.num_items() {
                assert(o.is_end(x));
                assert(o.container(x) is None);
                assert(store.is_end(x) == o.is_end(x));
                assert(store.container(x) == o.container(x));
            }
        }
        assert forall|k: int| 0 <= k < store.num_lists() implies (#[trigger] store.seq(k).len()) == 0 && store.cursor(k) == -1 by {
            if k < o.num_lists() {
                assert(o.seq(k).len() == 0 && o.cursor(k) == -1);
            }
        }
    }
    l
}

impl Kernel {
    /// A scheduler with its empty lists, no task, not started, every
    /// counter zero.
    pub fn new() -> (k: Kernel)
        ensures
            k.wf(),
            k.tasks@.len() == 0,
            k.current_tcb is None,
            k.tick_count == 0,
            k.top_ready_priority == 0,
            k.pended_ticks == 0,
            !k.scheduler_running,
            !k.yield_pending,
            k.num_of_overflows == 0,
            k.task_number == 0,
            k.next_task_unblock_time == 0,
            k.current_number_of_tasks == 0,
            k.scheduler_suspended == 0,
            k.deleted_tasks_waiting_clean_up == 0,
            k.store.num_items() == 13,
            k.store.num_lists() == 13,
            forall|l: int| 0 <= l < k.store.num_lists() ==> #[trigger] k.store.seq(l).len() == 0
                && k.store.cursor(l) == -1,
    {
        let mut store = ListStore::new();
        let mut ready: Vec<ListHandle> = Vec::new();
        let mut p: u64 = 0;
        while p < 8
            invariant
                p <= 8,
                fresh_store(&store),
                store.num_lists() == p,
                ready@.len() == p,
                forall|q: int| 0 <= q < p ==> #[trigger] ready@[q] == q,
            decreases 8 - p,
        {
            let l = fresh_list(&mut store);
            ready.push(l);
            p = p + 1;
        }
        let delayed = fresh_list(&mut store);
        let overflow = fresh_list(&mut store);
        let pending = fresh_list(&mut store);
        let termination = fresh_list(&mut store);
        let suspended = fresh_list(&mut store);
        let k = Kernel {
            store,
            tasks: Vec::new(),
            ready_task_lists: ready,
            delayed_task_list: delayed,
            overflow_delayed_task_list: overflow,
            pending_ready_list: pending,
            tasks_waiting_termination: termination,
            suspended_task_list: suspended,
            current_tcb: None,
            tick_count: 0,
            top_ready_priority: 0,
            pended_ticks: 0,
            scheduler_running: false,
            yield_pending: false,
            num_of_overflows: 0,
            task_number: 0,
            next_task_unblock_time: 0,
            current_number_of_tasks: 0,
            scheduler_suspended: 0,
            deleted_tasks_waiting_clean_up: 0,
            task_switched_in_time: 0,
            total_run_time: 0,
        };
        proof {
            assert forall|l: usize| 8 <= l implies !k.ready_task_lists@.contains(l) by {
                if k.ready_task_lists@.contains(l) {
                    let q = choose|q: int| 0 <= q < 8 && k.ready_task_lists@[q] == l;
                    assert(k.ready(q) == q);
                }
            }
            assert(k.lists_ok());
            assert forall|x: int| 0 <= x < k.store.num_items() implies #[trigger] k.store.container(x) is None by {
                assert(k.store.is_end(x) && k.store.container(x) is None);
            }
            assert forall|x: int| 0 <= x < k.store.num_items() implies #[trigger] k.store.is_end(x) by {
                assert(k.store.is_end(x) && k.store.container(x) is None);
            }
            assert(k.items_ok());
        }
        k
    }
}


/// Each task keeps its items (and a priority in range) and each item its
/// owner and kind: the tasks stay well formed.
pub proof fn lemma_tasks_kept(k0: &Kernel, k1: &Kernel)
    requires
        k0.tasks_ok(),
        k1.tasks@.len() == k0.tasks@.len(),
        k1.store.num_items() == k0.store.num_items(),
        forall|t: int|
            0 <= t < k0.tasks@.len() ==> #[trigger] k1.st(t) == k0.st(t) && k1.ev(t) == k0.ev(t)
                && k1.prio(t) < configMAX_PRIORITIES,
        forall|y: int|
            0 <= y < k0.store.num_items() ==> #[trigger] k1.store.owner(y) == k0.store.owner(y)
                && k1.store.is_end(y) == k0.store.is_end(y),
    ensures
        k1.tasks_ok(),
{
    assert forall|t: int| 0 <= t < k1.tasks@.len() implies {
        &&& #[trigger] k1.st(t) < k1.store.num_items()
        &&& k1.ev(t) < k1.store.num_items()
        &&& k1.st(t) != k1.ev(t)
        &&& !k1.store.is_end(k1.st(t) as int)
        &&& !k1.store.is_end(k1.ev(t) as int)
        &&& k1.store.owner(k1.st(t) as int) == Some(t as usize)
        &&& k1.store.owner(k1.ev(t) as int) == Some(t as usize)
        &&& k1.prio(t) < configMAX_PRIORITIES
    } by {
        assert(k0.st(t) < k0.store.num_items());
        assert(k1.store.owner(k1.st(t) as int) == k0.store.owner(k0.st(t) as int));
        assert(k1.store.owner(k1.ev(t) as int) == k0.store.owner(k0.ev(t) as int));
    }
}

/// Items keep their owners, kinds and lists (item `x` but as the
/// conditions on it say), and tasks their items: the items stay well
/// formed.
pub proof fn lemma_items_kept(k0: &Kernel, k1: &Kernel, x: int)
    requires
        k0.items_ok(),
        k0.tasks_ok(),
        k0.lists_ok(),
        k0.store.wf(),
        k1.tasks@.len() == k0.tasks@.len(),
        k1.store.num_items() == k0.store.num_items(),
        forall|t: int| 0 <= t < k0.tasks@.len() ==> #[trigger] k1.st(t) == k0.st(t) && k1.ev(t) == k0.ev(t),
        forall|y: int|
            0 <= y < k0.store.num_items() ==> #[trigger] k1.store.owner(y) == k0.store.owner(y)
                && k1.store.is_end(y) == k0.store.is_end(y),
        forall|ll: int| #[trigger] k1.is_state_list(ll) == k0.is_state_list(ll),
        k1.pending_ready_list == k0.pending_ready_list,
        forall|y: int| 0 <= y < k0.store.num_items() && y != x ==> #[trigger] k1.store.container(y) == k0.store.container(y),
        0 <= x < k0.store.num_items() && k1.store.container(x) is Some ==> !k0.store.is_end(x) && (x == k0.st(
            k0.owner_of(x),
        ) <==> k0.is_state_list(k1.store.container(x)->0 as int)) && (k1.store.container(x) == Some(
            k0.pending_ready_list,
        ) ==> x == k0.ev(k0.owner_of(x))),
    ensures
        k1.items_ok(),
{
    k0.store.lemma_wf();
    assert forall|y: int| 0 <= y < k1.store.num_items() implies #[trigger] k1.owner_of(y) == k0.owner_of(y) by {
        assert(k1.store.owner(y) == k0.store.owner(y));
    }
    assert forall|y: int| 0 <= y < k1.store.num_items() && !k1.store.is_end(y) implies {
        let t = k1.owner_of(y);
        &&& (#[trigger] k1.store.owner(y)) is Some
        &&& 0 <= t < k1.tasks@.len()
        &&& (y == k1.st(t) || y == k1.ev(t))
    } by {
        assert(k1.store.is_end(y) == k0.store.is_end(y));
        assert(k1.store.owner(y) == k0.store.owner(y));
        assert(k0.store.owner(y) is Some);
    }
    assert forall|y: int| 0 <= y < k1.store.num_items() && (#[trigger] k1.store.container(y)) is Some implies
        (y == k1.st(k1.owner_of(y)) <==> k1.is_state_list(k1.store.container(y)->0 as int)) by {
        assert(k1.owner_of(y) == k0.owner_of(y));
        if y != x {
            assert(k1.store.container(y) == k0.store.container(y));
            let lc = k0.store.container(y)->0 as int;
            assert(k0.store.seq(lc).contains(y as usize));
            let i = choose|i: int| 0 <= i < k0.store.seq(lc).len() && k0.store.seq(lc)[i] == y;
            assert(!k0.store.is_end(k0.store.seq(lc)[i] as int));
        }
        assert(k0.store.owner(y) is Some);
    }
    assert forall|y: int| 0 <= y < k1.store.num_items() && #[trigger] k1.store.container(y) == Some(
        k1.pending_ready_list,
    ) implies y == k1.ev(k1.owner_of(y)) by {
        assert(k1.owner_of(y) == k0.owner_of(y));
        if y != x {
            assert(k1.store.container(y) == k0.store.container(y));
            let lc = k0.pending_ready_list as int;
            assert(k0.store.seq(lc).contains(y as usize));
            let i = choose|i: int| 0 <= i < k0.store.seq(lc).len() && k0.store.seq(lc)[i] == y;
            assert(!k0.store.is_end(k0.store.seq(lc)[i] as int));
        }
        assert(k0.store.owner(y) is Some);
    }
}

/// `k1` is `k0` with another store.
pub open spec fn same_but_store(k0: &Kernel, k1: &Kernel) -> bool {
    k1 == Kernel { store: k1.store, ..*k0 }
}

/// One list operation, on item `x` and list `l`, keeps the scheduler
/// consistent when the item lands in a list of its kind and the detached
/// task changes at most with `x`.
pub proof fn lemma_store_step(k0: &Kernel, k1: &Kernel, d0: int, d1: int, l: int, x: int)
    requires
        k0.inv(d0),
        same_but_store(k0, k1),
        k1.store.wf(),
        k1.store.frame(&k0.store, l, x),
        0 <= x < k0.store.num_items(),
        0 <= l <= usize::MAX,
        !k0.store.is_end(x),
        k1.store.container(x) is Some ==> k1.store.container(x) == Some(l as usize) && ((x == k0.st(
            k0.owner_of(x),
        )) <==> k0.is_state_list(l)) && (l == k0.pending_ready_list ==> x == k0.ev(k0.owner_of(x))),
        d0 == d1 || ((d0 == k0.owner_of(x) || d0 == -1) && (d1 == k0.owner_of(x) || d1 == -1)),
        x == k0.st(k0.owner_of(x)) ==> ((k0.owner_of(x) == d1) <==> k1.store.container(x) is None),
        x != k0.st(k0.owner_of(x)) ==> ((k0.owner_of(x) == d1) <==> (k0.owner_of(x) == d0)),
        x != k0.st(k0.owner_of(x)) && k1.store.container(x) is Some ==> k0.owner_of(x) == d0
            || k0.store.container(k0.st(k0.owner_of(x)) as int) is Some,
    ensures
        k1.inv(d1),
{
    let tx = k0.owner_of(x);
    assert(k0.store.owner(x) is Some);
    assert forall|p: int| #[trigger] k1.ready(p) == k0.ready(p) by {}
    assert forall|t: int| #[trigger] k1.st(t) == k0.st(t) && k1.ev(t) == k0.ev(t) && k1.prio(t) == k0.prio(t) by {}
    assert forall|ll: int| #[trigger] k1.is_state_list(ll) == k0.is_state_list(ll) by {}
    assert forall|y: int| 0 <= y < k1.store.num_items() implies #[trigger] k1.owner_of(y) == k0.owner_of(y) by {
        assert(k1.store.owner(y) == k0.store.owner(y));
    }
    assert(k1.lists_ok());
    assert forall|y: int| 0 <= y < k0.store.num_items() implies #[trigger] k1.store.owner(y) == k0.store.owner(y)
        && k1.store.is_end(y) == k0.store.is_end(y) by {}
    assert forall|y: int| 0 <= y < k0.store.num_items() && y != x implies #[trigger] k1.store.container(y)
        == k0.store.container(y) by {}
    lemma_tasks_kept(k0, k1);
    lemma_items_kept(k0, k1, x);
    assert(k1.alive_ok(d1)) by {
        assert forall|t: int| 0 <= t < k1.tasks@.len() implies #[trigger] k1.placed_ok(t, d1) by {
            assert(k0.tasks_ok());
            assert(k0.st(t) < k0.store.num_items());
            assert(k0.placed_ok(t, d0));
            if k1.st(t) as int == x {
                assert(k0.store.owner(x) == Some(t as usize));
                assert(tx == t);
            } else {
                assert(k1.store.container(k1.st(t) as int) == k0.store.container(k0.st(t) as int));
                if t == tx {
                    if x == k0.st(tx) {
                        assert(false);
                    }
                    assert(x == k0.ev(t));
                } else {
                    assert(k0.store.owner(k0.ev(t) as int) == Some(t as usize));
                    assert(k1.store.container(k1.ev(t) as int) == k0.store.container(k0.ev(t) as int));
                }
            }
        }
    }
}


/// A change that keeps the store, the lists and each task's items and
/// priority keeps the scheduler consistent, given a running task (if any)
/// and a top ready priority in range.
pub proof fn lemma_same_structure(k0: &Kernel, k1: &Kernel, d: int)
    requires
        k0.inv(d),
        k1.store == k0.store,
        k1.tasks@.len() == k0.tasks@.len(),
        forall|t: int|
            0 <= t < k0.tasks@.len() ==> #[trigger] k1.st(t) == k0.st(t) && k1.ev(t) == k0.ev(t)
                && k1.prio(t) == k0.prio(t),
        k1.ready_task_lists == k0.ready_task_lists,
        k1.delayed_task_list == k0.delayed_task_list,
        k1.overflow_delayed_task_list == k0.overflow_delayed_task_list,
        k1.pending_ready_list == k0.pending_ready_list,
        k1.tasks_waiting_termination == k0.tasks_waiting_termination,
        k1.suspended_task_list == k0.suspended_task_list,
        k1.current_tcb matches Some(c) ==> c < k1.tasks@.len() && (k1.current_tcb == k0.current_tcb || c == d
            || k0.store.container(k0.st(c as int) as int) is Some),
        k1.top_ready_priority < configMAX_PRIORITIES,
        k1.current_number_of_tasks > 0 ==> k1.current_tcb is Some,
    ensures
        k1.inv(d),
{
    assert forall|p: int| #[trigger] k1.ready(p) == k0.ready(p) by {}
    assert forall|ll: int| #[trigger] k1.is_state_list(ll) == k0.is_state_list(ll) by {}
    assert forall|y: int| #[trigger] k1.owner_of(y) == k0.owner_of(y) by {}
    assert(k1.lists_ok());
    lemma_tasks_kept(k0, k1);
    lemma_items_kept(k0, k1, -1);
    assert(k1.alive_ok(d)) by {
        assert forall|t: int| 0 <= t < k1.tasks@.len() implies #[trigger] k1.placed_ok(t, d) by {
            assert(k0.st(t) < k0.store.num_items());
            assert(k0.placed_ok(t, d));
            assert(k1.store.container(k1.st(t) as int) == k0.store.container(k0.st(t) as int));
            assert(k1.store.container(k1.ev(t) as int) == k0.store.container(k0.ev(t) as int));
        }
    }
}

/// A change of the tasks' fields other than their items, each priority
/// staying in range, keeps the scheduler consistent.
pub proof fn lemma_task_fields(k0: &Kernel, k1: &Kernel, d: int)
    requires
        k0.inv(d),
        *k1 == (Kernel { tasks: k1.tasks, ..*k0 }),
        k1.tasks@.len() == k0.tasks@.len(),
        forall|t: int| 0 <= t < k0.tasks@.len() ==> #[trigger] k1.st(t) == k0.st(t) && k1.ev(t) == k0.ev(t),
        forall|t: int| 0 <= t < k0.tasks@.len() ==> #[trigger] k1.prio(t) < configMAX_PRIORITIES,
    ensures
        k1.inv(d),
{
    assert forall|p: int| #[trigger] k1.ready(p) == k0.ready(p) by {}
    assert forall|ll: int| #[trigger] k1.is_state_list(ll) == k0.is_state_list(ll) by {}
    assert forall|y: int| #[trigger] k1.owner_of(y) == k0.owner_of(y) by {}
    assert(k1.lists_ok());
    lemma_tasks_kept(k0, k1);
    lemma_items_kept(k0, k1, -1);
    assert(k1.alive_ok(d)) by {
        assert forall|t: int| 0 <= t < k1.tasks@.len() implies #[trigger] k1.placed_ok(t, d) by {
            assert(k0.st(t) < k0.store.num_items());
            assert(k0.placed_ok(t, d));
            assert(k1.store.container(k1.st(t) as int) == k0.store.container(k0.st(t) as int));
            assert(k1.store.container(k1.ev(t) as int) == k0.store.container(k0.ev(t) as int));
        }
    }
}

/// A new value of item `x` keeps the scheduler consistent.
pub proof fn lemma_value_step(k0: &Kernel, k1: &Kernel, d: int, x: int)
    requires
        k0.inv(d),
        same_but_store(k0, k1),
        k1.store.wf(),
        crate::list::item_frame(&k1.store, &k0.store, x),
        k1.store.owner(x) == k0.store.owner(x),
    ensures
        k1.inv(d),
{
    assert forall|p: int| #[trigger] k1.ready(p) == k0.ready(p) by {}
    assert forall|t: int| #[trigger] k1.st(t) == k0.st(t) && k1.ev(t) == k0.ev(t) && k1.prio(t) == k0.prio(t) by {}
    assert forall|ll: int| #[trigger] k1.is_state_list(ll) == k0.is_state_list(ll) by {}
    assert forall|y: int| 0 <= y < k1.store.num_items() implies #[trigger] k1.store.owner(y) == k0.store.owner(y) by {}
    assert forall|y: int| 0 <= y < k1.store.num_items() implies #[trigger] k1.owner_of(y) == k0.owner_of(y) by {
        assert(k1.store.owner(y) == k0.store.owner(y));
    }
    assert(k1.lists_ok());
    assert forall|y: int| 0 <= y < k0.store.num_items() implies #[trigger] k1.store.owner(y) == k0.store.owner(y)
        && k1.store.is_end(y) == k0.store.is_end(y) by {}
    lemma_tasks_kept(k0, k1);
    lemma_items_kept(k0, k1, -1);
    assert(k1.alive_ok(d)) by {
        assert forall|t: int| 0 <= t < k1.tasks@.len() implies #[trigger] k1.placed_ok(t, d) by {
            assert(k0.st(t) < k0.store.num_items());
            assert(k0.placed_ok(t, d));
            assert(k1.store.container(k1.st(t) as int) == k0.store.container(k0.st(t) as int));
            assert(k1.store.container(k1.ev(t) as int) == k0.store.container(k0.ev(t) as int));
        }
    }
}

} // verus!
