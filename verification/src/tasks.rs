//! Task control blocks and the task operations of the scheduler.
use vstd::prelude::*;
use crate::config::{
    FreeRtosError, StackType, TickType, UBaseType, configMAX_PRIORITIES, configMINIMAL_STACK_SIZE,
};
use crate::list::{
    ItemHandle, ListHandle, ListItem, cursor_after_insert, cursor_after_remove, first_greater,
    list_insert, list_insert_end, list_is_empty, list_remove, position_in, set_list_item_value,
    get_owner_of_head_entry, get_list_item_value,
};
use crate::config::{INCLUDE_vTaskSuspend, INCLUDE_xTaskAbortDelay, portMAX_DELAY, taskEVENT_LIST_ITEM_VALUE_IN_USE};
use crate::list::{get_list_item_container, is_contained_within};
use crate::config::portBYTE_ALIGNMENT_MASK;
use crate::port::{port_initialize_stack, port_malloc};
use crate::task_global::lemma_same_structure;
use crate::task_global::{Kernel, lemma_store_step, lemma_task_fields, lemma_value_step, same_but_store};

verus! {

/// The kernel's record of a task.  Its state item sits in the list of the
/// task's state (ready, delayed, suspended...); its event item in the list
/// of an event the task waits for.
pub struct TaskControlBlock {
    pub state_list_item: ItemHandle,
    pub event_list_item: ItemHandle,
    pub priority: UBaseType,
    pub task_name: String,
    pub stack_pointer: StackType,
    pub stack_length: UBaseType,
    pub critical_nesting: UBaseType,
    pub base_priority: UBaseType,
    pub mutexed_held: UBaseType,
    pub runtime_counter: TickType,
    pub notified_value: u32,
    pub nofity_state: u8,
    pub delay_aborted: bool,
}

/// The priority a request for `priority` gets: requests above
/// `configMAX_PRIORITIES` are cut to the highest priority.  A request of
/// exactly `configMAX_PRIORITIES` is not cut: the test is a strict one.
pub open spec fn capped_priority(priority: UBaseType) -> UBaseType {
    if priority > configMAX_PRIORITIES {
        (configMAX_PRIORITIES - 1) as UBaseType
    } else {
        priority
    }
}

impl TaskControlBlock {
    /// A task named "New task" of priority 1 with the minimal stack length,
    /// every counter zero.
    pub fn new() -> (r: Self)
        ensures
            r.priority == 1,
            r.task_name@ == "New task"@,
            r.stack_pointer == 0,
            r.stack_length == configMINIMAL_STACK_SIZE,
            r.critical_nesting == 0,
            r.base_priority == 0,
            r.mutexed_held == 0,
            r.runtime_counter == 0,
            r.notified_value == 0,
            r.nofity_state == 0,
            !r.delay_aborted,
            r.state_list_item == 0,
            r.event_list_item == 0,
    {
        TaskControlBlock {
            state_list_item: 0,
            event_list_item: 0,
            priority: 1,
            task_name: "New task".to_owned(),
            stack_pointer: 0,
            stack_length: configMINIMAL_STACK_SIZE,
            critical_nesting: 0,
            base_priority: 0,
            mutexed_held: 0,
            runtime_counter: 0,
            notified_value: 0,
            nofity_state: 0,
            delay_aborted: false,
        }
    }

    /// The task's name.
    pub fn get_name(&self) -> (r: &str)
        ensures
            r@ == self.task_name@,
    {
        self.task_name.as_str()
    }

    /// Renames the task.
    pub fn set_name(&mut self, name: &str)
        ensures
            final(self).task_name@ == name@,
            *final(self) == (TaskControlBlock { task_name: final(self).task_name, ..*old(self) }),
    {
        self.task_name = name.to_owned();
    }

    /// Sets the task's stack length, in words.
    pub fn set_stack_length(&mut self, length: UBaseType)
        ensures
            *final(self) == (TaskControlBlock { stack_length: length, ..*old(self) }),
    {
        self.stack_length = length;
    }

    /// The task's priority.
    pub fn get_priority(&self) -> (r: UBaseType)
        ensures
            r == self.priority,
    {
        self.priority
    }

    /// The same task with priority `priority`, cut to the highest priority
    /// when above `configMAX_PRIORITIES`.
    pub fn set_priority(self, priority: UBaseType) -> (r: Self)
        ensures
            r == (TaskControlBlock { priority: capped_priority(priority), ..self }),
    {
        let mut s = self;
        if priority > configMAX_PRIORITIES {
            s.priority = configMAX_PRIORITIES - 1;
        } else {
            s.priority = priority;
        }
        s
    }

    /// The task's base priority (its priority before any inheritance).
    pub fn get_base_priority(&self) -> (r: UBaseType)
        ensures
            r == self.base_priority,
    {
        self.base_priority
    }

    /// The same task with base priority `priority`, cut like `set_priority`.
    pub fn set_base_priority(self, priority: UBaseType) -> (r: Self)
        ensures
            r == (TaskControlBlock { base_priority: capped_priority(priority), ..self }),
    {
        let mut s = self;
        if priority > configMAX_PRIORITIES {
            s.base_priority = configMAX_PRIORITIES - 1;
        } else {
            s.base_priority = priority;
        }
        s
    }

    /// The task's state item.
    pub fn get_stack_list_item(&self) -> (r: ItemHandle)
        ensures
            r == self.state_list_item,
    {
        self.state_list_item
    }

    /// The task's event item.
    pub fn get_event_list_item(&self) -> (r: ItemHandle)
        ensures
            r == self.event_list_item,
    {
        self.event_list_item
    }

    /// The run time accounted to the task.
    pub fn get_runtime(&self) -> (r: TickType)
        ensures
            r == self.runtime_counter,
    {
        self.runtime_counter
    }

    /// Sets the run time accounted to the task and returns the previous one.
    pub fn set_runtime(&mut self, next_val: TickType) -> (r: TickType)
        ensures
            r == old(self).runtime_counter,
            *final(self) == (TaskControlBlock { runtime_counter: next_val, ..*old(self) }),
    {
        let prev_val = self.runtime_counter;
        self.runtime_counter = next_val;
        prev_val
    }

    /// Whether the task's delay was aborted.
    pub fn get_delay_aborted(&self) -> (r: bool)
        ensures
            r == self.delay_aborted,
    {
        self.delay_aborted
    }

    /// Sets whether the task's delay was aborted and returns the previous
    /// setting.
    pub fn set_delay_aborted(&mut self, next_val: bool) -> (r: bool)
        ensures
            r == old(self).delay_aborted,
            *final(self) == (TaskControlBlock { delay_aborted: next_val, ..*old(self) }),
    {
        let prev_val = self.delay_aborted;
        self.delay_aborted = next_val;
        prev_val
    }

    /// The number of mutexes the task holds.
    pub fn get_mutex_held_count(&self) -> (r: UBaseType)
        ensures
            r == self.mutexed_held,
    {
        self.mutexed_held
    }

    /// Sets the number of mutexes the task holds.
    pub fn set_mutex_held_count(&mut self, new_count: UBaseType)
        ensures
            *final(self) == (TaskControlBlock { mutexed_held: new_count, ..*old(self) }),
    {
        self.mutexed_held = new_count;
    }
}


impl TaskControlBlock {
    /// Sets up the task's stack through the port and registers the task in
    /// `k`, `param_ptr` being the address of its parameter block.  The stack
    /// takes `stack_length` words; an empty stack fails with `OutOfMemory`,
    /// and a stack frame the port does not lay out fails with its error
    /// (this port lays out none).  On success the task's counters are reset,
    /// its base priority is its priority, and it gets its two items.
    pub fn initialize(self, k: &mut Kernel, param_ptr: usize) -> (r: Result<TaskHandle, FreeRtosError>)
        requires
            self.stack_length <= usize::MAX,
            vstd::layout::size_of::<StackType>() * self.stack_length <= usize::MAX,
        ensures
            r == Err::<TaskHandle, FreeRtosError>(if self.stack_length == 0 {
                FreeRtosError::OutOfMemory
            } else {
                FreeRtosError::PortError
            }),
            *final(k) == *old(k),
    {
        proof {
            broadcast use vstd::layout::layout_of_primitives;
            assert(vstd::layout::size_of::<StackType>() > 0);
        }
        let mut tcb = self;
        let size_of_stacktype = core::mem::size_of::<StackType>();
        let stacksize_as_bytes = size_of_stacktype * (tcb.stack_length as usize);
        proof {
            let sz = size_of_stacktype as int;
            let len = tcb.stack_length as int;
            assert(sz > 0);
            assert(stacksize_as_bytes == sz * len);
            assert(len == 0 ==> sz * len == 0) by (nonlinear_arith);
            assert(sz > 0 && len > 0 ==> sz * len >= sz) by (nonlinear_arith);
        }
        let px_stack = match port_malloc(stacksize_as_bytes) {
            Ok(p) => p,
            Err(e) => {
                return Err(e);
            },
        };
        tcb.stack_pointer = px_stack;
        proof {
            assert(stacksize_as_bytes != 0);
            assert(px_stack == 0);
            assert(tcb.stack_length != 0);
            assert(stacksize_as_bytes >= size_of_stacktype);
        }
        let top_of_stack = (tcb.stack_pointer + stacksize_as_bytes - size_of_stacktype) & portBYTE_ALIGNMENT_MASK;
        match port_initialize_stack(top_of_stack, 32, param_ptr) {
            Ok(_) => {},
            Err(e) => {
                return Err(e);
            },
        }
        tcb.mutexed_held = 0;
        tcb.base_priority = tcb.priority;
        tcb.critical_nesting = 0;
        tcb.runtime_counter = 0;
        let handle = TaskHandle::from(k, tcb);
        Ok(handle)
    }
}

/// A task, by its place among the scheduler's tasks.
#[derive(Clone, Copy, Debug, PartialEq, Eq, Structural)]
pub struct TaskHandle(pub usize);

/// The larger of two priorities.
pub open spec fn max_prio(a: UBaseType, b: UBaseType) -> UBaseType {
    if b > a {
        b
    } else {
        a
    }
}

/// `k1` is `k0` with another store and another top ready priority.
pub open spec fn same_but_store_top(k0: &Kernel, k1: &Kernel) -> bool {
    k1 == Kernel { store: k1.store, top_ready_priority: k1.top_ready_priority, ..*k0 }
}

/// The list `s` with cursor `c` after `x` goes in just before the cursor
/// (at the end when the cursor is at the end marker).
pub open spec fn insert_before_cursor(s: Seq<ItemHandle>, c: int, x: ItemHandle) -> Seq<ItemHandle> {
    s.insert(if c < 0 { s.len() as int } else { c }, x)
}

/// Raises the recorded top ready priority to `priority`.
pub fn record_ready_priority(k: &mut Kernel, priority: UBaseType)
    ensures
        *final(k) == (Kernel {
            top_ready_priority: max_prio(old(k).top_ready_priority, priority),
            ..*old(k)
        }),
        old(k).wf() && priority < configMAX_PRIORITIES ==> final(k).wf(),
{
    let ghost k0 = *old(k);
    if priority > k.top_ready_priority {
        k.top_ready_priority = priority;
    }
    proof {
        if k0.wf() && priority < configMAX_PRIORITIES {
            assert forall|u: int| 0 <= u < k0.tasks@.len() implies #[trigger] k.st(u) == k0.st(u) && k.ev(u) == k0.ev(u)
                && k.prio(u) == k0.prio(u) by {}
            lemma_same_structure(&k0, k, -1);
        }
    }
}

impl TaskHandle {
    /// Registers `tcb` as a new task of `k` and returns its handle.  The
    /// task's two items (the default items a new control block holds, value
    /// `portMAX_DELAY`) enter the store, marked as the task's; it is in no
    /// list yet.
    pub fn from(k: &mut Kernel, tcb: TaskControlBlock) -> (h: TaskHandle)
        requires
            old(k).wf(),
            tcb.priority < configMAX_PRIORITIES,
            old(k).store.num_items() + 2 < usize::MAX,
            old(k).tasks@.len() + 1 < usize::MAX,
        ensures
            h.0 == old(k).tasks@.len(),
            final(k).inv(h.0 as int),
            final(k).tasks@.len() == old(k).tasks@.len() + 1,
            forall|t: int| 0 <= t < old(k).tasks@.len() ==> #[trigger] final(k).tasks@[t] == old(k).tasks@[t],
            final(k).tasks@[h.0 as int] == (TaskControlBlock {
                state_list_item: final(k).st(h.0 as int),
                event_list_item: final(k).ev(h.0 as int),
                ..tcb
            }),
            final(k).st(h.0 as int) == old(k).store.num_items(),
            final(k).ev(h.0 as int) == old(k).store.num_items() + 1,
            final(k).store.value(final(k).st(h.0 as int) as int) == crate::config::portMAX_DELAY,
            final(k).store.value(final(k).ev(h.0 as int) as int) == crate::config::portMAX_DELAY,
            final(k).store.num_items() == old(k).store.num_items() + 2,
            final(k).store.num_lists() == old(k).store.num_lists(),
            forall|l: int|
                #![trigger final(k).store.seq(l)]
                #![trigger final(k).store.cursor(l)]
                0 <= l < old(k).store.num_lists() ==> final(k).store.seq(l) == old(k).store.seq(l)
                    && final(k).store.cursor(l) == old(k).store.cursor(l),
            forall|y: int|
                #![trigger final(k).store.value(y)]
                #![trigger final(k).store.container(y)]
                0 <= y < old(k).store.num_items() ==> final(k).store.value(y) == old(k).store.value(y)
                    && final(k).store.container(y) == old(k).store.container(y),
            *final(k) == (Kernel { store: final(k).store, tasks: final(k).tasks, ..*old(k) }),
    {
        let ghost k0 = *old(k);
        let t = k.tasks.len();
        let st = k.store.add_item(ListItem::new().owner(t));
        let ev = k.store.add_item(ListItem::new().owner(t));
        let mut tcb2 = tcb;
        tcb2.state_list_item = st;
        tcb2.event_list_item = ev;
        k.tasks.push(tcb2);
        proof {
            let k1 = *k;
            let ti = t as int;
            assert(k1.st(ti) == st && k1.ev(ti) == ev);
            assert forall|j: int| 0 <= j < k0.tasks@.len() implies #[trigger] k1.tasks@[j] == k0.tasks@[j] by {}
            assert forall|p: int| #[trigger] k1.ready(p) == k0.ready(p) by {}
            assert forall|ll: int| #[trigger] k1.is_state_list(ll) == k0.is_state_list(ll) by {}
            assert(k1.lists_ok());
            assert(k1.tasks_ok()) by {
                assert forall|j: int| 0 <= j < k1.tasks@.len() implies {
                    &&& #[trigger] k1.st(j) < k1.store.num_items()
                    &&& k1.ev(j) < k1.store.num_items()
                    &&& k1.st(j) != k1.ev(j)
                    &&& !k1.store.is_end(k1.st(j) as int)
                    &&& !k1.store.is_end(k1.ev(j) as int)
                    &&& k1.store.owner(k1.st(j) as int) == Some(j as usize)
                    &&& k1.store.owner(k1.ev(j) as int) == Some(j as usize)
                    &&& k1.prio(j) < configMAX_PRIORITIES
                } by {
                    if j < ti {
                        assert(k0.st(j) < k0.store.num_items());
                        assert(k1.st(j) == k0.st(j) && k1.ev(j) == k0.ev(j));
                    }
                }
            }
            assert(k1.items_ok()) by {
                assert forall|y: int| 0 <= y < k1.store.num_items() && !k1.store.is_end(y) implies {
                    let tt = k1.owner_of(y);
                    &&& (#[trigger] k1.store.owner(y)) is Some
                    &&& 0 <= tt < k1.tasks@.len()
                    &&& (y == k1.st(tt) || y == k1.ev(tt))
                } by {
                    if y < k0.store.num_items() {
                        assert(k0.store.owner(y) is Some);
                        let tt = k0.owner_of(y);
                        assert(k1.st(tt) == k0.st(tt) && k1.ev(tt) == k0.ev(tt));
                    }
                }
                assert forall|y: int| 0 <= y < k1.store.num_items() && (#[trigger] k1.store.container(y)) is Some implies
                    (y == k1.st(k1.owner_of(y)) <==> k1.is_state_list(k1.store.container(y)->0 as int)) by {
                    assert(y < k0.store.num_items());
                    assert(k0.store.container(y) is Some);
                    k0.store.lemma_wf();
                    let lc = k0.store.container(y)->0 as int;
                    assert(k0.store.seq(lc).contains(y as usize));
                    let i = choose|i: int| 0 <= i < k0.store.seq(lc).len() && k0.store.seq(lc)[i] == y;
                    assert(!k0.store.is_end(k0.store.seq(lc)[i] as int));
                    let tt = k0.owner_of(y);
                    assert(k0.store.owner(y) is Some);
                    assert(k1.tasks@[tt] == k0.tasks@[tt]);
                    assert(k1.st(tt) == k0.st(tt));
                }
                assert forall|y: int| 0 <= y < k1.store.num_items() && #[trigger] k1.store.container(y) == Some(
                    k1.pending_ready_list,
                ) implies y == k1.ev(k1.owner_of(y)) by {
                    assert(y < k0.store.num_items());
                    assert(k0.store.container(y) == Some(k0.pending_ready_list));
                    k0.store.lemma_wf();
                    let lc = k0.pending_ready_list as int;
                    assert(k0.store.seq(lc).contains(y as usize));
                    let i = choose|i: int| 0 <= i < k0.store.seq(lc).len() && k0.store.seq(lc)[i] == y;
                    assert(!k0.store.is_end(k0.store.seq(lc)[i] as int));
                    let tt = k0.owner_of(y);
                    assert(k0.store.owner(y) is Some);
                    assert(k1.tasks@[tt] == k0.tasks@[tt]);
                    assert(k1.ev(tt) == k0.ev(tt));
                }
            }
            assert(k1.alive_ok(ti)) by {
                assert forall|j: int| 0 <= j < k1.tasks@.len() implies #[trigger] k1.placed_ok(j, ti) by {
                    if j < ti {
                        assert(k0.st(j) < k0.store.num_items());
                        assert(k1.st(j) == k0.st(j));
                        assert(k1.ev(j) == k0.ev(j));
                        assert(k0.placed_ok(j, -1));
                    }
                }
            }
        }
        TaskHandle(t)
    }

    /// The task's priority.
    pub fn get_priority(&self, k: &Kernel) -> (r: UBaseType)
        requires
            self.0 < k.tasks@.len(),
        ensures
            r == k.prio(self.0 as int),
    {
        k.tasks[self.0].priority
    }

    /// The task's base priority.
    pub fn get_base_priority(&self, k: &Kernel) -> (r: UBaseType)
        requires
            self.0 < k.tasks@.len(),
        ensures
            r == k.tasks@[self.0 as int].base_priority,
    {
        k.tasks[self.0].base_priority
    }

    /// The task's state item.
    pub fn get_state_list_item(&self, k: &Kernel) -> (r: ItemHandle)
        requires
            self.0 < k.tasks@.len(),
        ensures
            r == k.st(self.0 as int),
    {
        k.tasks[self.0].state_list_item
    }

    /// The task's event item.
    pub fn get_event_list_item(&self, k: &Kernel) -> (r: ItemHandle)
        requires
            self.0 < k.tasks@.len(),
        ensures
            r == k.ev(self.0 as int),
    {
        k.tasks[self.0].event_list_item
    }

    /// The run time accounted to the task.
    pub fn get_runtime(&self, k: &Kernel) -> (r: TickType)
        requires
            self.0 < k.tasks@.len(),
        ensures
            r == k.tasks@[self.0 as int].runtime_counter,
    {
        k.tasks[self.0].runtime_counter
    }

    /// Whether the task's delay was aborted.
    pub fn get_delay_aborted(&self, k: &Kernel) -> (r: bool)
        requires
            self.0 < k.tasks@.len(),
        ensures
            r == k.tasks@[self.0 as int].delay_aborted,
    {
        k.tasks[self.0].delay_aborted
    }

    /// The number of mutexes the task holds.
    pub fn get_mutex_held_count(&self, k: &Kernel) -> (r: UBaseType)
        requires
            self.0 < k.tasks@.len(),
        ensures
            r == k.tasks@[self.0 as int].mutexed_held,
    {
        k.tasks[self.0].mutexed_held
    }

    /// Puts the task in the ready list of its priority, just before that
    /// list's cursor, and records the priority as ready.
    pub fn add_task_to_ready_list(&self, k: &mut Kernel) -> (r: Result<(), FreeRtosError>)
        requires
            old(k).inv(self.0 as int),
            self.0 < old(k).tasks@.len(),
        ensures
            r is Ok,
            final(k).wf(),
            ({
                let t = self.0 as int;
                let l = old(k).ready(old(k).prio(t) as int) as int;
                &&& final(k).store.seq(l) == insert_before_cursor(
                    old(k).store.seq(l),
                    old(k).store.cursor(l),
                    old(k).st(t),
                )
                &&& final(k).store.cursor(l) == cursor_after_insert(
                    old(k).store.cursor(l),
                    if old(k).store.cursor(l) < 0 {
                        old(k).store.seq(l).len() as int
                    } else {
                        old(k).store.cursor(l)
                    },
                )
                &&& final(k).store.container(old(k).st(t) as int) == Some(l as usize)
                &&& final(k).store.frame(&old(k).store, l, old(k).st(t) as int)
            }),
            final(k).top_ready_priority == max_prio(old(k).top_ready_priority, old(k).prio(self.0 as int)),
            same_but_store_top(old(k), final(k)),
    {
        let ghost k0 = *old(k);
        let t = self.0;
        let priority = k.tasks[t].priority;
        record_ready_priority(k, priority);
        let ghost k1 = *k;
        let l = k.ready_task_lists[priority as usize];
        let st = k.tasks[t].state_list_item;
        proof {
            assert(k0.tasks_ok());
            assert(k0.st(t as int) < k0.store.num_items());
            assert(k0.ready(priority as int) < k0.store.num_lists());
            assert(k1.inv(t as int)) by {
                assert forall|p: int| #[trigger] k1.ready(p) == k0.ready(p) by {}
                assert forall|tt: int| #[trigger] k1.st(tt) == k0.st(tt) && k1.ev(tt) == k0.ev(tt) && k1.prio(tt) == k0.prio(tt) by {}
                assert forall|ll: int| #[trigger] k1.is_state_list(ll) == k0.is_state_list(ll) by {}
                assert forall|y: int| #[trigger] k1.owner_of(y) == k0.owner_of(y) by {}
                assert forall|tt: int| 0 <= tt < k1.tasks@.len() implies #[trigger] k1.placed_ok(tt, t as int) by {
                    assert(k0.placed_ok(tt, t as int));
                }
            }
            assert(k1.placed_ok(t as int, t as int));
            assert(k1.store.container(st as int) is None);
        }
        list_insert_end(&mut k.store, l, st);
        proof {
            let k2 = *k;
            assert(k1.ready_task_lists@.contains(l)) by {
                assert(k1.ready_task_lists@[priority as int] == l);
            }
            assert(k1.is_state_list(l as int));
            assert(k1.store.owner(st as int) == Some(t));
            lemma_store_step(&k1, &k2, t as int, -1, l as int, st as int);
        }
        Ok(())
    }

    /// Adds a registered task to the scheduler: counts it, makes it the
    /// running task when there is none yet, or before the scheduler starts
    /// when it has a higher priority than the running one, numbers it and
    /// puts it in its ready list.
    pub fn add_new_task_to_ready_list(&self, k: &mut Kernel) -> (r: Result<(), FreeRtosError>)
        requires
            old(k).inv(self.0 as int),
            self.0 < old(k).tasks@.len(),
            old(k).current_number_of_tasks < UBaseType::MAX,
            old(k).task_number < UBaseType::MAX,
        ensures
            r is Ok,
            final(k).wf(),
            final(k).current_number_of_tasks == old(k).current_number_of_tasks + 1,
            final(k).task_number == old(k).task_number + 1,
            final(k).current_tcb == (match old(k).current_tcb {
                None => Some(self.0),
                Some(c) => if !old(k).scheduler_running && old(k).prio(c as int) < old(k).prio(
                    self.0 as int,
                ) {
                    Some(self.0)
                } else {
                    Some(c)
                },
            }),
            ({
                let t = self.0 as int;
                let l = old(k).ready(old(k).prio(t) as int) as int;
                &&& final(k).store.seq(l) == insert_before_cursor(
                    old(k).store.seq(l),
                    old(k).store.cursor(l),
                    old(k).st(t),
                )
                &&& final(k).store.container(old(k).st(t) as int) == Some(l as usize)
                &&& final(k).store.frame(&old(k).store, l, old(k).st(t) as int)
            }),
            final(k).top_ready_priority == max_prio(old(k).top_ready_priority, old(k).prio(self.0 as int)),
            *final(k) == (Kernel {
                store: final(k).store,
                top_ready_priority: final(k).top_ready_priority,
                current_tcb: final(k).current_tcb,
                current_number_of_tasks: final(k).current_number_of_tasks,
                task_number: final(k).task_number,
                ..*old(k)
            }),
    {
        let ghost k0 = *old(k);
        k.current_number_of_tasks = k.current_number_of_tasks + 1;
        match k.current_tcb {
            None => {
                k.current_tcb = Some(self.0);
            },
            Some(c) => {
                if !k.scheduler_running {
                    if k.tasks[c].priority < k.tasks[self.0].priority {
                        k.current_tcb = Some(self.0);
                    }
                }
            },
        }
        k.task_number = k.task_number + 1;
        let ghost k1 = *k;
        proof {
            assert(k1.inv(self.0 as int)) by {
                assert forall|p: int| #[trigger] k1.ready(p) == k0.ready(p) by {}
                assert forall|tt: int| #[trigger] k1.st(tt) == k0.st(tt) && k1.ev(tt) == k0.ev(tt) && k1.prio(tt) == k0.prio(tt) by {}
                assert forall|ll: int| #[trigger] k1.is_state_list(ll) == k0.is_state_list(ll) by {}
                assert forall|y: int| #[trigger] k1.owner_of(y) == k0.owner_of(y) by {}
                assert forall|tt: int| 0 <= tt < k1.tasks@.len() implies #[trigger] k1.placed_ok(tt, self.0 as int) by {
                    assert(k0.placed_ok(tt, self.0 as int));
                }
            }
        }
        let r = self.add_task_to_ready_list(k);
        proof {
            assert forall|p: int| #[trigger] k1.ready(p) == k0.ready(p) by {}
            assert forall|tt: int| #[trigger] k1.st(tt) == k0.st(tt) && k1.prio(tt) == k0.prio(tt) by {}
        }
        r
    }
}

/// The wake time of the task at the head of the delayed list, the value
/// of its state item, or `portMAX_DELAY` when that list is empty.
pub open spec fn head_wake_time(k: &Kernel) -> TickType {
    let d = k.delayed_task_list as int;
    if k.store.seq(d).len() == 0 {
        crate::config::portMAX_DELAY
    } else {
        k.store.value(k.st(k.owner_of(k.store.seq(d)[0] as int)) as int)
    }
}

/// Sets the time of the next unblocking to the value of the state item of
/// the task at the head of the delayed list, or to `portMAX_DELAY` when that
/// list is empty.
pub fn reset_next_task_unblock_time(k: &mut Kernel)
    requires
        old(k).wf(),
    ensures
        final(k).wf(),
        final(k).next_task_unblock_time == head_wake_time(old(k)),
        *final(k) == (Kernel { next_task_unblock_time: final(k).next_task_unblock_time, ..*old(k) }),
{
    let ghost k0 = *old(k);
    if list_is_empty(&k.store, k.delayed_task_list) {
        k.next_task_unblock_time = crate::config::portMAX_DELAY;
    } else {
        proof {
            k0.store.lemma_wf();
            let x = k0.store.seq(k0.delayed_task_list as int)[0] as int;
            assert(k0.store.owner(x) is Some);
        }
        let temp = TaskHandle(get_owner_of_head_entry(&k.store, k.delayed_task_list));
        let st = temp.get_state_list_item(k);
        proof {
            assert(k0.tasks_ok());
            assert(k0.st(temp.0 as int) < k0.store.num_items());
        }
        k.next_task_unblock_time = get_list_item_value(&k.store, st);
    }
    proof {
        let k1 = *k;
        assert forall|p: int| #[trigger] k1.ready(p) == k0.ready(p) by {}
        assert forall|tt: int| #[trigger] k1.st(tt) == k0.st(tt) && k1.ev(tt) == k0.ev(tt) && k1.prio(tt) == k0.prio(tt) by {}
        assert forall|ll: int| #[trigger] k1.is_state_list(ll) == k0.is_state_list(ll) by {}
        assert forall|y: int| #[trigger] k1.owner_of(y) == k0.owner_of(y) by {}
        assert forall|tt: int| 0 <= tt < k1.tasks@.len() implies #[trigger] k1.placed_ok(tt, -1) by {
            assert(k0.placed_ok(tt, -1));
        }
    }
}


/// The tick at which a task delayed now for `ticks` wakes (wrapping).
pub open spec fn wake_time(k: &Kernel, ticks: TickType) -> TickType {
    k.tick_count.wrapping_add(ticks)
}

/// A delay of `ticks` that may block forever puts the task in the
/// suspended list.
pub open spec fn delay_forever(ticks: TickType, can_block_indefinitely: bool) -> bool {
    INCLUDE_vTaskSuspend && ticks == portMAX_DELAY && can_block_indefinitely
}

/// The list a task delayed now for `ticks` goes to: the suspended list for
/// a wait forever, the overflow delayed list when the wake time wraps past
/// the tick counter, else the delayed list.
pub open spec fn delay_target(k: &Kernel, ticks: TickType, can_block_indefinitely: bool) -> ListHandle {
    if delay_forever(ticks, can_block_indefinitely) {
        k.suspended_task_list
    } else if wake_time(k, ticks) < k.tick_count {
        k.overflow_delayed_task_list
    } else {
        k.delayed_task_list
    }
}

/// The items of list `l` once item `x`, at position `k` of list `l0`, is
/// taken out (no change for another list).
pub open spec fn seq_without(k: &Kernel, l: int, l0: int, kpos: int) -> Seq<ItemHandle> {
    if l == l0 {
        k.store.seq(l).remove(kpos)
    } else {
        k.store.seq(l)
    }
}

/// The cursor of list `l` once the item at position `kpos` of list `l0` is
/// taken out.
pub open spec fn cursor_without(k: &Kernel, l: int, l0: int, kpos: int) -> int {
    if l == l0 {
        cursor_after_remove(k.store.cursor(l), kpos)
    } else {
        k.store.cursor(l)
    }
}

/// Facts for a sorted insertion of the running task's state item `x`,
/// just taken out of list `l0` (store `k2`) and given the wake time `time`
/// (store `k3`), into list `l`.
proof fn sorted_insert_facts(
    k0: &Kernel,
    k2: &Kernel,
    k3: &Kernel,
    l: int,
    l0: int,
    x: ItemHandle,
    time: TickType,
)
    requires
        k2.store.wf(),
        0 <= l < k2.store.num_lists(),
        k2.store.container(x as int) is None,
        x < k2.store.num_items(),
        k2.store.seq(l) == seq_without(k0, l, l0, position_in(k0.store.seq(l0), x)),
        crate::list::item_frame(&k3.store, &k2.store, x as int),
        k3.store.value(x as int) == time,
        forall|y: int| 0 <= y < k0.store.num_items() && y != x ==> #[trigger] k2.store.value(y) == k0.store.value(y),
        k0.store.num_items() == k2.store.num_items(),
    ensures
        k3.store.seq(l) == seq_without(k0, l, l0, position_in(k0.store.seq(l0), x)),
        k3.store.value(x as int) == time,
        k3.store.values(l) == seq_without(k0, l, l0, position_in(k0.store.seq(l0), x)).map_values(
            |y: ItemHandle| k0.store.value(y as int),
        ),
{
    let s1 = k2.store.seq(l);
    k2.store.lemma_wf();
    assert forall|j: int| 0 <= j < s1.len() implies #[trigger] s1[j] != x by {
        assert(k2.store.container(s1[j] as int) == Some(l as usize));
    }
    assert(k3.store.seq(l) == s1);
    assert(k3.store.values(l) =~= s1.map_values(|y: ItemHandle| k0.store.value(y as int))) by {
        assert forall|j: int| 0 <= j < s1.len() implies #[trigger] k3.store.values(l)[j]
            == s1.map_values(|y: ItemHandle| k0.store.value(y as int))[j] by {
            assert(s1[j] != x);
            assert(s1[j] < k2.store.num_items());
            assert(k3.store.value(s1[j] as int) == k2.store.value(s1[j] as int));
            assert(k2.store.value(s1[j] as int) == k0.store.value(s1[j] as int));
        }
    }
}

/// The store part of `delay_post`: where the running task's state item
/// goes, and that nothing else of the store moves.
pub open spec fn delay_moves(k0: Kernel, k: Kernel, ticks: TickType, cbi: bool) -> bool {
    let t = k0.current_tcb->0 as int;
    let x = k0.st(t);
    let l0 = k0.store.container(x as int)->0 as int;
    let kpos = position_in(k0.store.seq(l0), x);
    let target = delay_target(&k0, ticks, cbi) as int;
    let time = wake_time(&k0, ticks);
    let s1 = seq_without(&k0, target, l0, kpos);
    let c1 = cursor_without(&k0, target, l0, kpos);
    &&& 0 <= kpos < k0.store.seq(l0).len()
    &&& k0.store.seq(l0)[kpos] == x
    &&& k.store.container(x as int) == Some(target as usize)
    &&& (delay_forever(ticks, cbi) ==> k.store.seq(target)
        == s1.insert(if c1 < 0 { s1.len() as int } else { c1 }, x)
        && k.store.value(x as int) == k0.store.value(x as int))
    &&& (!delay_forever(ticks, cbi) ==> k.store.seq(target)
        == s1.insert(first_greater(s1.map_values(|y: ItemHandle| k0.store.value(y as int)), time) as int, x)
        && k.store.value(x as int) == time)
    &&& k.store.cursor(target) == cursor_after_insert(
        c1,
        if delay_forever(ticks, cbi) {
            if c1 < 0 {
                s1.len() as int
            } else {
                c1
            }
        } else {
            first_greater(s1.map_values(|y: ItemHandle| k0.store.value(y as int)), time) as int
        },
    )
    &&& (l0 != target ==> k.store.seq(l0) == k0.store.seq(l0).remove(kpos)
        && k.store.cursor(l0) == cursor_after_remove(k0.store.cursor(l0), kpos))
    &&& forall|l: int|
        0 <= l < k0.store.num_lists() && l != l0 && l != target ==> #[trigger] k.store.seq(l)
            == k0.store.seq(l) && k.store.cursor(l) == k0.store.cursor(l)
    &&& forall|y: int|
        0 <= y < k0.store.num_items() && y != x ==> #[trigger] k.store.value(y)
            == k0.store.value(y) && k.store.container(y) == k0.store.container(y)
}

/// `delay_moves` from its parts, named.
proof fn lemma_delay_moves(
    k0: Kernel,
    k: Kernel,
    ticks: TickType,
    cbi: bool,
    x: ItemHandle,
    l0: int,
    kpos: int,
    target: int,
    time: TickType,
    s1: Seq<ItemHandle>,
    c1: int,
)
    requires
        x == k0.st(k0.current_tcb->0 as int),
        l0 == k0.store.container(x as int)->0 as int,
        kpos == position_in(k0.store.seq(l0), x),
        target == delay_target(&k0, ticks, cbi) as int,
        time == wake_time(&k0, ticks),
        s1 == seq_without(&k0, target, l0, kpos),
        c1 == cursor_without(&k0, target, l0, kpos),
        0 <= kpos < k0.store.seq(l0).len(),
        k0.store.seq(l0)[kpos] == x,
        k.store.container(x as int) == Some(target as usize),
        delay_forever(ticks, cbi) ==> k.store.seq(target) == s1.insert(if c1 < 0 { s1.len() as int } else { c1 }, x)
            && k.store.value(x as int) == k0.store.value(x as int) && k.store.cursor(target) == cursor_after_insert(
            c1,
            if c1 < 0 { s1.len() as int } else { c1 },
        ),
        !delay_forever(ticks, cbi) ==> k.store.seq(target) == s1.insert(
            first_greater(s1.map_values(|y: ItemHandle| k0.store.value(y as int)), time) as int,
            x,
        ) && k.store.value(x as int) == time && k.store.cursor(target) == cursor_after_insert(
            c1,
            first_greater(s1.map_values(|y: ItemHandle| k0.store.value(y as int)), time) as int,
        ),
        l0 != target ==> k.store.seq(l0) == k0.store.seq(l0).remove(kpos) && k.store.cursor(l0)
            == cursor_after_remove(k0.store.cursor(l0), kpos),
        forall|l: int|
            0 <= l < k0.store.num_lists() && l != l0 && l != target ==> #[trigger] k.store.seq(l) == k0.store.seq(l)
                && k.store.cursor(l) == k0.store.cursor(l),
        forall|y: int|
            0 <= y < k0.store.num_items() && y != x ==> #[trigger] k.store.value(y) == k0.store.value(y)
                && k.store.container(y) == k0.store.container(y),
    ensures
        delay_moves(k0, k, ticks, cbi),
{
}

/// The rest of `delay_post`: the next unblocking, the task's aborted delay
/// mark, and nothing else changed.
pub open spec fn delay_rest(k0: Kernel, k: Kernel, ticks: TickType, cbi: bool) -> bool {
    let t = k0.current_tcb->0 as int;
    let time = wake_time(&k0, ticks);
    &&& k.next_task_unblock_time == if !delay_forever(ticks, cbi)
        && time >= k0.tick_count && time < k0.next_task_unblock_time {
        time
    } else {
        k0.next_task_unblock_time
    }
    &&& (INCLUDE_xTaskAbortDelay ==> !k.tasks@[t].delay_aborted)
    &&& k.tasks@[t] == (TaskControlBlock { delay_aborted: k.tasks@[t].delay_aborted, ..k0.tasks@[t] })
    &&& forall|u: int| 0 <= u < k0.tasks@.len() && u != t ==> #[trigger] k.tasks@[u] == k0.tasks@[u]
    &&& k.tasks@.len() == k0.tasks@.len()
    &&& k == (Kernel { store: k.store, tasks: k.tasks, next_task_unblock_time: k.next_task_unblock_time, ..k0 })
}

/// What moving the running task into the list that a delay of `ticks`
/// calls for does, taking `k0` to `k`: its state item leaves its list for
/// the suspended list (before the cursor) when it waits forever, else for
/// the delayed list of its wake time, sorted, with the wake time as value;
/// an earlier wake time becomes the next unblocking; its aborted delay mark
/// is cleared; nothing else changes.
pub open spec fn delay_post(k0: Kernel, k: Kernel, ticks: TickType, cbi: bool) -> bool {
    delay_moves(k0, k, ticks, cbi) && delay_rest(k0, k, ticks, cbi)
}

/// Moves the running task out of its state list into the list that its
/// delay of `ticks_to_delay` calls for: the suspended list (just before the
/// cursor) for a wait forever, else a delayed list sorted by wake time, the
/// state item taking the wake time as value.  A wake time before the next
/// unblocking becomes the next unblocking.  The task's aborted delay mark is
/// cleared.
#[verifier::rlimit(100)]
#[verifier::spinoff_prover]
pub fn add_current_task_to_delayed_list(
    k: &mut Kernel,
    ticks_to_delay: TickType,
    can_block_indefinitely: bool,
)
    requires
        old(k).wf(),
        old(k).current_tcb is Some,
    ensures
        final(k).wf(),
        delay_post(*old(k), *final(k), ticks_to_delay, can_block_indefinitely),
{
    let ghost k0 = *old(k);
    let t = k.current_tcb.unwrap();
    if INCLUDE_xTaskAbortDelay {
        k.tasks[t].delay_aborted = false;
    }
    let ghost k1 = *k;
    proof {
        assert forall|u: int| 0 <= u < k0.tasks@.len() implies #[trigger] k1.st(u) == k0.st(u) && k1.ev(u) == k0.ev(u)
            && k1.prio(u) == k0.prio(u) by {}
        lemma_same_structure(&k0, &k1, -1);
    }
    let x = k.tasks[t].state_list_item;
    let ghost l0 = k1.store.container(x as int)->0 as int;
    proof {
        assert(k1.tasks_ok());
        assert(x < k1.store.num_items());
        assert(k1.placed_ok(t as int, -1));
        assert(k1.store.container(x as int) is Some);
        assert(k1.store.owner(x as int) == Some(t));
        k1.store.lemma_wf();
        assert(0 <= l0 < k1.store.num_lists());
    }
    list_remove(&mut k.store, x);
    let ghost k2 = *k;
    proof {
        lemma_store_step(&k1, &k2, -1, t as int, l0, x as int);
    }
    if ticks_to_delay == portMAX_DELAY && can_block_indefinitely && INCLUDE_vTaskSuspend {
        let l = k.suspended_task_list;
        list_insert_end(&mut k.store, l, x);
        proof {
            let k3 = *k;
            assert(k2.is_state_list(l as int));
            lemma_store_step(&k2, &k3, t as int, -1, l as int, x as int);
            if l0 != l as int {
                assert(k3.store.seq(l0) == k2.store.seq(l0));
            }
        }
    } else {
        let time = k.tick_count.wrapping_add(ticks_to_delay);
        set_list_item_value(&mut k.store, x, time);
        let ghost k3 = *k;
        proof {
            assert forall|u: int| 0 <= u < k2.tasks@.len() implies #[trigger] k3.st(u) == k2.st(u) && k3.ev(u) == k2.ev(u)
                && k3.prio(u) == k2.prio(u) by {}
            lemma_value_step(&k2, &k3, t as int, x as int);
        }
        if time < k.tick_count {
            let l = k.overflow_delayed_task_list;
            proof {
                sorted_insert_facts(&k0, &k2, &k3, l as int, l0, x, time);
            }
            list_insert(&mut k.store, l, x);
            proof {
                let k4 = *k;
                assert(k3.is_state_list(l as int));
                lemma_store_step(&k3, &k4, t as int, -1, l as int, x as int);
                if l0 != l as int {
                    assert(k4.store.seq(l0) == k3.store.seq(l0));
                }
            }
        } else {
            let l = k.delayed_task_list;
            proof {
                sorted_insert_facts(&k0, &k2, &k3, l as int, l0, x, time);
            }
            list_insert(&mut k.store, l, x);
            let ghost k4 = *k;
            proof {
                assert(k3.is_state_list(l as int));
                lemma_store_step(&k3, &k4, t as int, -1, l as int, x as int);
                if l0 != l as int {
                    assert(k4.store.seq(l0) == k3.store.seq(l0));
                }
            }
            if time < k.next_task_unblock_time {
                k.next_task_unblock_time = time;
            }
            proof {
                let k5 = *k;
                assert forall|u: int| 0 <= u < k4.tasks@.len() implies #[trigger] k5.st(u) == k4.st(u) && k5.ev(u) == k4.ev(u)
                    && k5.prio(u) == k4.prio(u) by {}
                lemma_same_structure(&k4, &k5, -1);
            }
        }
    }
    proof {
        let kf = *k;
        let target = delay_target(&k0, ticks_to_delay, can_block_indefinitely) as int;
        let kpos = position_in(k0.store.seq(l0), x);
        let s1 = seq_without(&k0, target, l0, kpos);
        assert(k2.store.seq(target) == s1);
        assert(k2.store.cursor(target) == cursor_without(&k0, target, l0, kpos));
        k2.store.lemma_wf();
        assert forall|j: int| 0 <= j < s1.len() implies #[trigger] s1[j] != x by {
            assert(k2.store.container(s1[j] as int) == Some(target as usize));
        }
        assert forall|u: int| 0 <= u < k0.tasks@.len() && u != t implies #[trigger] kf.tasks@[u] == k0.tasks@[u] by {}
        assert forall|y: int| 0 <= y < k0.store.num_items() && y != x implies #[trigger] kf.store.value(y)
            == k0.store.value(y) && kf.store.container(y) == k0.store.container(y) by {
            assert(k2.store.value(y) == k0.store.value(y));
            assert(k2.store.container(y) == k0.store.container(y));
        }
        assert forall|l: int| 0 <= l < k0.store.num_lists() && l != l0 && l != target implies
            #[trigger] kf.store.seq(l) == k0.store.seq(l) && kf.store.cursor(l) == k0.store.cursor(l) by {
            assert(k2.store.seq(l) == k0.store.seq(l));
            assert(kf.store.seq(l) == k2.store.seq(l));
        }
        if l0 != target {
            assert(k1.store.cursor(l0) == k0.store.cursor(l0));
            assert(kf.store.seq(l0) == k2.store.seq(l0));
            assert(kf.store.cursor(l0) == k2.store.cursor(l0));
        }
        assert(kf.store.container(x as int) == Some(target as usize));
        assert(kf.tasks@[t as int] == (TaskControlBlock { delay_aborted: kf.tasks@[t as int].delay_aborted, ..k0.tasks@[t as int] }));
        assert(kf == (Kernel {
            store: kf.store,
            tasks: kf.tasks,
            next_task_unblock_time: kf.next_task_unblock_time,
            ..k0
        }));
        let time = wake_time(&k0, ticks_to_delay);
        let c1 = cursor_without(&k0, target, l0, kpos);
        let fg = first_greater(s1.map_values(|y: ItemHandle| k0.store.value(y as int)), time) as int;
        if delay_forever(ticks_to_delay, can_block_indefinitely) {
            assert(kf.store.seq(target) == s1.insert(if c1 < 0 { s1.len() as int } else { c1 }, x));
            assert(kf.store.value(x as int) == k0.store.value(x as int));
            assert(kf.store.cursor(target) == cursor_after_insert(c1, if c1 < 0 { s1.len() as int } else { c1 }));
        } else {
            assert(kf.store.seq(target) == s1.insert(fg, x));
            assert(kf.store.value(x as int) == time);
            assert(kf.store.cursor(target) == cursor_after_insert(c1, fg));
        }
        assert forall|l: int| 0 <= l < k0.store.num_lists() && l != l0 && l != target implies
            #[trigger] kf.store.seq(l) == k0.store.seq(l) && kf.store.cursor(l) == k0.store.cursor(l) by {
            assert(k2.store.seq(l) == k0.store.seq(l));
            assert(kf.store.seq(l) == k2.store.seq(l));
            assert(kf.store.cursor(l) == k2.store.cursor(l));
        }
        let kp = position_in(k0.store.seq(l0), x);
        assert(0 <= kp < k0.store.seq(l0).len() && k0.store.seq(l0)[kp] == x);
        lemma_delay_moves(k0, kf, ticks_to_delay, can_block_indefinitely, x, l0, kpos, target, time, s1, c1);
        assert(delay_rest(k0, kf, ticks_to_delay, can_block_indefinitely));
    }
}

impl TaskHandle {
    /// Changes the task's priority to `priority`, cut to the highest
    /// priority when above `configMAX_PRIORITIES`: the base priority always
    /// takes it, the priority when it was not raised above the base.  The
    /// event item takes the value of the new priority unless its value is
    /// marked in use.  A task in the lowest ready list then moves to the
    /// ready list of its priority; only that list is looked at, so a ready
    /// task of another priority stays in its list.  Returns whether the change calls for a
    /// yield: another task got a priority above the running task's, or the
    /// running task kept its base priority.
    #[verifier::rlimit(100)]
    #[verifier::spinoff_prover]
    pub fn set_priority_in_detail(&self, k: &mut Kernel, priority: UBaseType) -> (yielding: bool)
        requires
            old(k).wf(),
            self.0 < old(k).tasks@.len(),
            old(k).current_tcb is Some,
            priority != configMAX_PRIORITIES,
        ensures
            final(k).wf(),
            ({
                let t = self.0 as int;
                let p = capped_priority(priority);
                let c = old(k).current_tcb->0 as int;
                let tcb = old(k).tasks@[t];
                let new_prio = if tcb.base_priority == tcb.priority {
                    p
                } else {
                    tcb.priority
                };
                let ev = old(k).ev(t);
                let st = old(k).st(t);
                let l0 = old(k).ready(0) as int;
                let l1 = old(k).ready(new_prio as int) as int;
                let kpos = position_in(old(k).store.seq(l0), st);
                &&& yielding == (if tcb.base_priority != p {
                    t != c && p > old(k).prio(c)
                } else {
                    t == c
                })
                &&& final(k).tasks@.len() == old(k).tasks@.len()
                &&& final(k).tasks@[t] == (TaskControlBlock { priority: new_prio, base_priority: p, ..tcb })
                &&& forall|u: int| 0 <= u < old(k).tasks@.len() && u != t ==> #[trigger] final(k).tasks@[u] == old(k).tasks@[u]
                &&& final(k).store.value(ev as int) == (if old(k).store.value(ev as int) & taskEVENT_LIST_ITEM_VALUE_IN_USE
                    == 0 {
                    (configMAX_PRIORITIES - p) as TickType
                } else {
                    old(k).store.value(ev as int)
                })
                &&& forall|y: int|
                    0 <= y < old(k).store.num_items() && y != ev ==> #[trigger] final(k).store.value(y) == old(k).store.value(y)
                &&& if old(k).store.container(st as int) == Some(l0 as usize) {
                    &&& final(k).store.container(st as int) == Some(l1 as usize)
                    &&& final(k).store.seq(l1) == insert_before_cursor(
                        seq_without(old(k), l1, l0, kpos),
                        cursor_without(old(k), l1, l0, kpos),
                        st,
                    )
                    &&& final(k).store.cursor(l1) == ({
                        let sw = seq_without(old(k), l1, l0, kpos);
                        let cw = cursor_without(old(k), l1, l0, kpos);
                        cursor_after_insert(
                            cw,
                            if cw < 0 {
                                sw.len() as int
                            } else {
                                cw
                            },
                        )
                    })
                    &&& (l0 != l1 ==> final(k).store.seq(l0) == old(k).store.seq(l0).remove(kpos)
                        && final(k).store.cursor(l0) == cursor_after_remove(old(k).store.cursor(l0), kpos))
                    &&& final(k).top_ready_priority == max_prio(old(k).top_ready_priority, new_prio)
                    &&& forall|l: int|
                        0 <= l < old(k).store.num_lists() && l != l0 && l != l1 ==> #[trigger] final(k).store.seq(l)
                            == old(k).store.seq(l) && final(k).store.cursor(l) == old(k).store.cursor(l)
                    &&& forall|y: int|
                        0 <= y < old(k).store.num_items() && y != st ==> #[trigger] final(k).store.container(y)
                            == old(k).store.container(y)
                } else {
                    &&& final(k).top_ready_priority == old(k).top_ready_priority
                    &&& forall|l: int|
                        0 <= l < old(k).store.num_lists() ==> #[trigger] final(k).store.seq(l) == old(k).store.seq(l)
                            && final(k).store.cursor(l) == old(k).store.cursor(l)
                    &&& forall|y: int|
                        0 <= y < old(k).store.num_items() ==> #[trigger] final(k).store.container(y) == old(k).store.container(y)
                }
            }),
            *final(k) == (Kernel {
                store: final(k).store,
                tasks: final(k).tasks,
                top_ready_priority: final(k).top_ready_priority,
                ..*old(k)
            }),
    {
        let ghost k0 = *old(k);
        let t = self.0;
        let mut priority = priority;
        let mut yielding = false;
        if priority > configMAX_PRIORITIES {
            priority = configMAX_PRIORITIES - 1;
        }
        let cur = k.current_tcb.unwrap();
        let current_base_priority = k.tasks[t].base_priority;
        if current_base_priority != priority {
            if t != cur {
                if priority > k.tasks[cur].priority {
                    yielding = true;
                }
            }
        } else if t == cur {
            yielding = true;
        }
        if k.tasks[t].base_priority == k.tasks[t].priority {
            k.tasks[t].priority = priority;
        }
        k.tasks[t].base_priority = priority;
        let ghost k1 = *k;
        proof {
            assert(priority < configMAX_PRIORITIES);
            assert(k1.prio(t as int) < configMAX_PRIORITIES);
            assert forall|u: int| 0 <= u < k0.tasks@.len() implies #[trigger] k1.st(u) == k0.st(u) && k1.ev(u)
                == k0.ev(u) by {}
            assert forall|u: int| 0 <= u < k0.tasks@.len() implies #[trigger] k1.prio(u) < configMAX_PRIORITIES by {
                assert(k0.st(u) < k0.store.num_items());
                if u != t {
                    assert(k1.tasks@[u] == k0.tasks@[u]);
                }
            }
            lemma_task_fields(&k0, &k1, -1);
        }
        let event_list_item = k.tasks[t].event_list_item;
        let state_list_item = k.tasks[t].state_list_item;
        proof {
            assert(k1.tasks_ok());
            assert(k1.st(t as int) < k1.store.num_items());
        }
        if get_list_item_value(&k.store, event_list_item) & taskEVENT_LIST_ITEM_VALUE_IN_USE == 0 {
            set_list_item_value(&mut k.store, event_list_item, (configMAX_PRIORITIES - priority) as TickType);
            proof {
                lemma_value_step(&k1, k, -1, event_list_item as int);
                assert(k1.store == k0.store);
                assert(crate::list::item_frame(&k.store, &k1.store, event_list_item as int));
                assert forall|l: int| 0 <= l < k0.store.num_lists() implies #[trigger] k.store.seq(l) == k0.store.seq(l)
                    && k.store.cursor(l) == k0.store.cursor(l) by {
                    assert(k.store.seq(l) == k1.store.seq(l));
                }
                assert forall|y: int| 0 <= y < k0.store.num_items() implies #[trigger] k.store.container(y)
                    == k0.store.container(y) by {
                    assert(k.store.container(y) == k1.store.container(y));
                }
            }
        } else {
            proof {
                assert(k.store == k0.store);
            }
        }
        let ghost k2 = *k;
        let l0 = k.ready_task_lists[0];
        proof {
            assert(k2.lists_ok());
            assert(k2.ready(0) < k2.store.num_lists());
            assert(forall|l: int| 0 <= l < k0.store.num_lists() ==> #[trigger] k2.store.seq(l) == k0.store.seq(l)
                && k2.store.cursor(l) == k0.store.cursor(l));
            assert(forall|y: int| 0 <= y < k0.store.num_items() ==> #[trigger] k2.store.container(y) == k0.store.container(y));
        }
        if is_contained_within(&k.store, l0, state_list_item) {
            list_remove(&mut k.store, state_list_item);
            let ghost k3 = *k;
            proof {
                lemma_store_step(&k2, &k3, -1, t as int, l0 as int, state_list_item as int);
            }
            let _ = self.add_task_to_ready_list(k);
            proof {
                let k4 = *k;
                let l1 = k3.ready(k3.prio(t as int) as int) as int;
                let kpos = position_in(k0.store.seq(l0 as int), state_list_item);
                assert(k3.store.seq(l1) == seq_without(&k0, l1, l0 as int, kpos));
                assert(k3.store.cursor(l1) == cursor_without(&k0, l1, l0 as int, kpos));
                assert forall|y: int| 0 <= y < k0.store.num_items() && y != state_list_item implies
                    #[trigger] k4.store.container(y) == k0.store.container(y) by {
                    assert(k3.store.container(y) == k2.store.container(y));
                }
                assert forall|y: int| 0 <= y < k0.store.num_items() && y != event_list_item implies
                    #[trigger] k4.store.value(y) == k0.store.value(y) by {
                    assert(k3.store.value(y) == k2.store.value(y));
                }
                assert(k2.lists_ok());
                assert forall|l: int| 0 <= l < k0.store.num_lists() && l != l0 && l != l1 implies
                    #[trigger] k4.store.seq(l) == k0.store.seq(l) && k4.store.cursor(l) == k0.store.cursor(l) by {
                    assert(k3.store.seq(l) == k2.store.seq(l));
                    assert(k4.store.seq(l) == k3.store.seq(l));
                }
                if l0 as int != l1 {
                    assert(k4.store.seq(l0 as int) == k3.store.seq(l0 as int));
                    assert(k4.store.cursor(l0 as int) == k3.store.cursor(l0 as int));
                }
            }
        }
        yielding
    }
}

/// A change of the fields of task `t` other than its items, its priority
/// staying in range, keeps the scheduler consistent.
proof fn lemma_one_task(k0: &Kernel, k1: &Kernel, t: int)
    requires
        k0.wf(),
        *k1 == (Kernel { tasks: k1.tasks, ..*k0 }),
        0 <= t < k0.tasks@.len(),
        k1.tasks@.len() == k0.tasks@.len(),
        k1.st(t) == k0.st(t),
        k1.ev(t) == k0.ev(t),
        k1.prio(t) < configMAX_PRIORITIES,
        forall|u: int| 0 <= u < k0.tasks@.len() && u != t ==> #[trigger] k1.tasks@[u] == k0.tasks@[u],
    ensures
        k1.wf(),
{
    assert forall|u: int| 0 <= u < k0.tasks@.len() implies #[trigger] k1.st(u) == k0.st(u) && k1.ev(u) == k0.ev(u) by {
        if u != t {
            assert(k1.tasks@[u] == k0.tasks@[u]);
        }
    }
    assert forall|u: int| 0 <= u < k0.tasks@.len() implies #[trigger] k1.prio(u) < configMAX_PRIORITIES by {
        assert(k0.st(u) < k0.store.num_items());
        if u != t {
            assert(k1.tasks@[u] == k0.tasks@[u]);
        }
    }
    lemma_task_fields(k0, k1, -1);
}

impl TaskHandle {
    /// The task's name.
    pub fn get_name(&self, k: &Kernel) -> (r: String)
        requires
            self.0 < k.tasks@.len(),
        ensures
            r@ == k.tasks@[self.0 as int].task_name@,
    {
        k.tasks[self.0].task_name.clone()
    }

    /// Sets the task's priority, cut like `TaskControlBlock::set_priority`.
    pub fn set_priority(&self, k: &mut Kernel, priority: UBaseType)
        requires
            old(k).wf(),
            self.0 < old(k).tasks@.len(),
            priority != configMAX_PRIORITIES,
        ensures
            final(k).wf(),
            final(k).tasks@.len() == old(k).tasks@.len(),
            final(k).tasks@[self.0 as int] == (TaskControlBlock {
                priority: capped_priority(priority),
                ..old(k).tasks@[self.0 as int]
            }),
            forall|u: int| 0 <= u < old(k).tasks@.len() && u != self.0 ==> #[trigger] final(k).tasks@[u] == old(k).tasks@[u],
            *final(k) == (Kernel { tasks: final(k).tasks, ..*old(k) }),
    {
        let ghost k0 = *old(k);
        if priority > configMAX_PRIORITIES {
            k.tasks[self.0].priority = configMAX_PRIORITIES - 1;
        } else {
            k.tasks[self.0].priority = priority;
        }
        proof {
            lemma_one_task(&k0, k, self.0 as int);
        }
    }

    /// Sets the task's base priority, cut like
    /// `TaskControlBlock::set_base_priority`.
    pub fn set_base_priority(&self, k: &mut Kernel, priority: UBaseType)
        requires
            old(k).wf(),
            self.0 < old(k).tasks@.len(),
        ensures
            final(k).wf(),
            final(k).tasks@.len() == old(k).tasks@.len(),
            final(k).tasks@[self.0 as int] == (TaskControlBlock {
                base_priority: capped_priority(priority),
                ..old(k).tasks@[self.0 as int]
            }),
            forall|u: int| 0 <= u < old(k).tasks@.len() && u != self.0 ==> #[trigger] final(k).tasks@[u] == old(k).tasks@[u],
            *final(k) == (Kernel { tasks: final(k).tasks, ..*old(k) }),
    {
        let ghost k0 = *old(k);
        if priority > configMAX_PRIORITIES {
            k.tasks[self.0].base_priority = configMAX_PRIORITIES - 1;
        } else {
            k.tasks[self.0].base_priority = priority;
        }
        proof {
            assert(k0.tasks_ok());
            assert(k0.st(self.0 as int) < k0.store.num_items());
            lemma_one_task(&k0, k, self.0 as int);
        }
    }

    /// Sets the run time accounted to the task and returns the previous one.
    pub fn set_runtime(&self, k: &mut Kernel, next_val: TickType) -> (r: TickType)
        requires
            old(k).wf(),
            self.0 < old(k).tasks@.len(),
        ensures
            final(k).wf(),
            r == old(k).tasks@[self.0 as int].runtime_counter,
            final(k).tasks@.len() == old(k).tasks@.len(),
            final(k).tasks@[self.0 as int] == (TaskControlBlock {
                runtime_counter: next_val,
                ..old(k).tasks@[self.0 as int]
            }),
            forall|u: int| 0 <= u < old(k).tasks@.len() && u != self.0 ==> #[trigger] final(k).tasks@[u] == old(k).tasks@[u],
            *final(k) == (Kernel { tasks: final(k).tasks, ..*old(k) }),
    {
        let ghost k0 = *old(k);
        let prev_val = k.tasks[self.0].runtime_counter;
        k.tasks[self.0].runtime_counter = next_val;
        proof {
            assert(k0.tasks_ok());
            assert(k0.st(self.0 as int) < k0.store.num_items());
            lemma_one_task(&k0, k, self.0 as int);
        }
        prev_val
    }

    /// Sets whether the task's delay was aborted and returns the previous
    /// setting.
    pub fn set_delay_aborted(&self, k: &mut Kernel, next_val: bool) -> (r: bool)
        requires
            old(k).wf(),
            self.0 < old(k).tasks@.len(),
        ensures
            final(k).wf(),
            r == old(k).tasks@[self.0 as int].delay_aborted,
            final(k).tasks@.len() == old(k).tasks@.len(),
            final(k).tasks@[self.0 as int] == (TaskControlBlock {
                delay_aborted: next_val,
                ..old(k).tasks@[self.0 as int]
            }),
            forall|u: int| 0 <= u < old(k).tasks@.len() && u != self.0 ==> #[trigger] final(k).tasks@[u] == old(k).tasks@[u],
            *final(k) == (Kernel { tasks: final(k).tasks, ..*old(k) }),
    {
        let ghost k0 = *old(k);
        let prev_val = k.tasks[self.0].delay_aborted;
        k.tasks[self.0].delay_aborted = next_val;
        proof {
            assert(k0.tasks_ok());
            assert(k0.st(self.0 as int) < k0.store.num_items());
            lemma_one_task(&k0, k, self.0 as int);
        }
        prev_val
    }

    /// Sets the number of mutexes the task holds.
    pub fn set_mutex_held_count(&self, k: &mut Kernel, new_count: UBaseType)
        requires
            old(k).wf(),
            self.0 < old(k).tasks@.len(),
        ensures
            final(k).wf(),
            final(k).tasks@.len() == old(k).tasks@.len(),
            final(k).tasks@[self.0 as int] == (TaskControlBlock {
                mutexed_held: new_count,
                ..old(k).tasks@[self.0 as int]
            }),
            forall|u: int| 0 <= u < old(k).tasks@.len() && u != self.0 ==> #[trigger] final(k).tasks@[u] == old(k).tasks@[u],
            *final(k) == (Kernel { tasks: final(k).tasks, ..*old(k) }),
    {
        let ghost k0 = *old(k);
        k.tasks[self.0].mutexed_held = new_count;
        proof {
            assert(k0.tasks_ok());
            assert(k0.st(self.0 as int) < k0.store.num_items());
            lemma_one_task(&k0, k, self.0 as int);
        }
    }
}

/// Whether task `task` is suspended: its state item is in the suspended
/// list, and its event item in no list (so not in the pending ready list):
/// it waits for no event.
pub fn is_task_suspended(k: &Kernel, task: &TaskHandle) -> (r: bool)
    requires
        k.wf(),
        task.0 < k.tasks@.len(),
    ensures
        r == (k.store.container(k.st(task.0 as int) as int) == Some(k.suspended_task_list)
            && k.store.container(k.ev(task.0 as int) as int) != Some(k.pending_ready_list)
            && k.store.container(k.ev(task.0 as int) as int) is None),
{
    let mut result = false;
    let st = task.get_state_list_item(k);
    let ev = task.get_event_list_item(k);
    proof {
        assert(k.tasks_ok());
        assert(k.st(task.0 as int) < k.store.num_items());
        assert(k.lists_ok());
    }
    if is_contained_within(&k.store, k.suspended_task_list, st) {
        if !is_contained_within(&k.store, k.pending_ready_list, ev) {
            if get_list_item_container(&k.store, ev).is_none() {
                result = true;
            }
        }
    }
    result
}

/// Resumes task `task` when it is suspended and not the running task: it
/// leaves the suspended list for its ready list.  Returns whether the
/// running task should yield to it: its priority is at least the running
/// task's.
pub fn resume_task(k: &mut Kernel, task: TaskHandle) -> (r: bool)
    requires
        old(k).wf(),
        task.0 < old(k).tasks@.len(),
        old(k).current_tcb is Some,
    ensures
        final(k).wf(),
        ({
            let t = task.0 as int;
            let c = old(k).current_tcb->0 as int;
            let st = old(k).st(t);
            let l0 = old(k).suspended_task_list as int;
            let l1 = old(k).ready(old(k).prio(t) as int) as int;
            let kpos = position_in(old(k).store.seq(l0), st);
            if t != c && old(k).store.container(st as int) == Some(old(k).suspended_task_list)
                && old(k).store.container(old(k).ev(t) as int) is None {
                &&& r == (old(k).prio(c) <= old(k).prio(t))
                &&& final(k).store.container(st as int) == Some(l1 as usize)
                &&& final(k).store.seq(l0) == old(k).store.seq(l0).remove(kpos)
                &&& final(k).store.seq(l1) == insert_before_cursor(
                    old(k).store.seq(l1),
                    old(k).store.cursor(l1),
                    st,
                )
                &&& final(k).store.cursor(l0) == cursor_after_remove(old(k).store.cursor(l0), kpos)
                &&& final(k).store.cursor(l1) == cursor_after_insert(
                    old(k).store.cursor(l1),
                    if old(k).store.cursor(l1) < 0 {
                        old(k).store.seq(l1).len() as int
                    } else {
                        old(k).store.cursor(l1)
                    },
                )
                &&& final(k).top_ready_priority == max_prio(old(k).top_ready_priority, old(k).prio(t))
                &&& forall|l: int|
                    0 <= l < old(k).store.num_lists() && l != l0 && l != l1 ==> #[trigger] final(k).store.seq(l)
                        == old(k).store.seq(l)
                &&& forall|y: int|
                    0 <= y < old(k).store.num_items() && y != st ==> #[trigger] final(k).store.container(y)
                        == old(k).store.container(y)
                &&& *final(k) == (Kernel {
                    store: final(k).store,
                    top_ready_priority: final(k).top_ready_priority,
                    ..*old(k)
                })
            } else {
                !r && *final(k) == *old(k)
            }
        }),
{
    let ghost k0 = *old(k);
    let cur = k.current_tcb.unwrap();
    let mut yielding = false;
    if task.0 != cur {
        if is_task_suspended(k, &task) {
            let st = task.get_state_list_item(k);
            let l0 = k.suspended_task_list;
            proof {
                assert(k0.tasks_ok());
                assert(k0.st(task.0 as int) < k0.store.num_items());
                assert(k0.lists_ok());
            }
            list_remove(&mut k.store, st);
            let ghost k1 = *k;
            proof {
                let kpos = position_in(k0.store.seq(l0 as int), st);
                assert(k1.store.cursor(l0 as int) == cursor_after_remove(k0.store.cursor(l0 as int), kpos));
                lemma_store_step(&k0, &k1, -1, task.0 as int, l0 as int, st as int);
                let l1 = k0.ready(k0.prio(task.0 as int) as int) as int;
                assert(k0.ready_task_lists@[k0.prio(task.0 as int) as int] == l1);
                assert(k0.ready_task_lists@.contains(l1 as usize));
                assert(l1 != l0);
            }
            let _ = task.add_task_to_ready_list(k);
            proof {
                let k2 = *k;
                let l1 = k0.ready(k0.prio(task.0 as int) as int) as int;
                assert(k1.store.seq(l1) == k0.store.seq(l1));
                assert(k1.store.cursor(l1) == k0.store.cursor(l1));
                assert forall|y: int| 0 <= y < k0.store.num_items() && y != st implies
                    #[trigger] k2.store.container(y) == k0.store.container(y) by {
                    assert(k1.store.container(y) == k0.store.container(y));
                }
                assert(k1.lists_ok());
                assert(l0 < k1.store.num_lists());
                assert(l1 != l0 as int);
                assert(k2.store.seq(l0 as int) == k1.store.seq(l0 as int));
                assert(k2.store.cursor(l0 as int) == k1.store.cursor(l0 as int));
            }
            if k.tasks[cur].priority <= k.tasks[task.0].priority {
                yielding = true;
            }
        }
    }
    yielding
}

/// A task out of every list that is not the running task has left the
/// scheduler: the state is consistent with no task detached.
proof fn lemma_release(k: &Kernel, t: int)
    requires
        k.inv(t),
        0 <= t < k.tasks@.len(),
        k.store.container(k.ev(t) as int) is None,
        k.current_tcb != Some(t as usize),
    ensures
        k.wf(),
{
    assert forall|u: int| 0 <= u < k.tasks@.len() implies #[trigger] k.placed_ok(u, -1) by {
        assert(k.placed_ok(u, t));
    }
}

/// The task that `task_delete` deletes: the given one, else the running
/// one.
pub open spec fn delete_target(k: &Kernel, task_to_delete: Option<TaskHandle>) -> int {
    match task_to_delete {
        Some(h) => h.0 as int,
        None => k.current_tcb->0 as int,
    }
}

/// What deleting task `t` does to every list but its own state list and the
/// list of tasks waiting for termination: the event item leaves any list
/// (its list loses that one entry, its cursor moves as a removal moves it),
/// and nothing else moves.
pub open spec fn delete_common(k0: Kernel, k1: Kernel, t: int) -> bool {
    let st = k0.st(t);
    let ev = k0.ev(t);
    let l0 = k0.store.container(st as int)->0 as int;
    let term = k0.tasks_waiting_termination as int;
    &&& k1.task_number == k0.task_number + 1
    &&& k1.store.container(ev as int) is None
    &&& (k0.store.container(ev as int) matches Some(le) ==> k1.store.seq(le as int)
        == k0.store.seq(le as int).remove(position_in(k0.store.seq(le as int), ev))
        && k1.store.cursor(le as int) == cursor_after_remove(
        k0.store.cursor(le as int),
        position_in(k0.store.seq(le as int), ev),
    ))
    &&& forall|y: int|
        0 <= y < k0.store.num_items() && y != st && y != ev ==> #[trigger] k1.store.container(y)
            == k0.store.container(y)
    &&& forall|l: int|
        0 <= l < k0.store.num_lists() && l != l0 && l != term && Some(l as usize)
            != k0.store.container(ev as int) ==> #[trigger] k1.store.seq(l) == k0.store.seq(l)
}

/// Deleting the running task `t`: its state item moves to the end of the
/// list of tasks waiting for termination (before that list's cursor), one
/// more deleted task waits for clean-up, and nothing else of the kernel
/// changes.
pub open spec fn delete_running(k0: Kernel, k1: Kernel, t: int) -> bool {
    let st = k0.st(t);
    let l0 = k0.store.container(st as int)->0 as int;
    let kpos = position_in(k0.store.seq(l0), st);
    let term = k0.tasks_waiting_termination as int;
    let sw = seq_without(&k0, term, l0, kpos);
    let cw = cursor_without(&k0, term, l0, kpos);
    &&& k1.store.container(st as int) == Some(term as usize)
    &&& k1.store.seq(term) == insert_before_cursor(sw, cw, st)
    &&& k1.store.cursor(term) == cursor_after_insert(cw, if cw < 0 { sw.len() as int } else { cw })
    &&& (l0 != term ==> k1.store.seq(l0) == k0.store.seq(l0).remove(kpos) && k1.store.cursor(l0)
        == cursor_after_remove(k0.store.cursor(l0), kpos))
    &&& k1 == (Kernel {
        store: k1.store,
        task_number: k1.task_number,
        deleted_tasks_waiting_clean_up: (k0.deleted_tasks_waiting_clean_up + 1) as UBaseType,
        ..k0
    })
}

/// Deleting a task `t` that is not running: its state item leaves its list,
/// the task leaves the scheduler (one task fewer), and the next unblocking
/// time is that of the head of the delayed list, or `portMAX_DELAY` when
/// that list is empty.
pub open spec fn delete_other(k0: Kernel, k1: Kernel, t: int) -> bool {
    let st = k0.st(t);
    let l0 = k0.store.container(st as int)->0 as int;
    let kpos = position_in(k0.store.seq(l0), st);
    &&& k1.store.container(st as int) is None
    &&& k1.store.seq(l0) == k0.store.seq(l0).remove(kpos)
    &&& k1.store.cursor(l0) == cursor_after_remove(k0.store.cursor(l0), kpos)
    &&& k1.next_task_unblock_time == head_wake_time(&k1)
    &&& k1 == (Kernel {
        store: k1.store,
        task_number: k1.task_number,
        current_number_of_tasks: (k0.current_number_of_tasks - 1) as UBaseType,
        next_task_unblock_time: k1.next_task_unblock_time,
        ..k0
    })
}

/// Deletes task `task_to_delete` (the running task for `None`): its state
/// item leaves its state list, its event item leaves any list, and the task
/// number goes up.  The running task then waits in the list of tasks
/// waiting for deletion, one more to clean up; another task leaves the
/// scheduler: one task fewer, and the next unblocking is recomputed.
#[verifier::rlimit(80)]
#[verifier::spinoff_prover]
pub fn task_delete(k: &mut Kernel, task_to_delete: Option<TaskHandle>)
    requires
        old(k).wf(),
        task_to_delete is None ==> old(k).current_tcb is Some,
        0 <= delete_target(old(k), task_to_delete) < old(k).tasks@.len(),
        old(k).store.container(old(k).st(delete_target(old(k), task_to_delete)) as int) is Some,
        old(k).task_number < UBaseType::MAX,
        old(k).current_tcb == Some(delete_target(old(k), task_to_delete) as usize)
            ==> old(k).deleted_tasks_waiting_clean_up < UBaseType::MAX,
        old(k).current_tcb != Some(delete_target(old(k), task_to_delete) as usize)
            ==> old(k).current_number_of_tasks > 0,
    ensures
        final(k).wf(),
        delete_common(*old(k), *final(k), delete_target(old(k), task_to_delete)),
        old(k).current_tcb == Some(delete_target(old(k), task_to_delete) as usize) ==> delete_running(
            *old(k),
            *final(k),
            delete_target(old(k), task_to_delete),
        ),
        old(k).current_tcb != Some(delete_target(old(k), task_to_delete) as usize) ==> delete_other(
            *old(k),
            *final(k),
            delete_target(old(k), task_to_delete),
        ),
{
    let ghost k0 = *old(k);
    let t: usize = match task_to_delete {
        Some(h) => h.0,
        None => k.current_tcb.unwrap(),
    };
    let task = TaskHandle(t);
    let st = task.get_state_list_item(k);
    let ev = task.get_event_list_item(k);
    let ghost l0 = k0.store.container(st as int)->0 as int;
    proof {
        assert(k0.tasks_ok());
        assert(k0.st(t as int) < k0.store.num_items());
        k0.store.lemma_wf();
        assert(0 <= l0 < k0.store.num_lists());
        assert(k0.is_state_list(l0));
    }
    let _ = list_remove(&mut k.store, st);
    let ghost k1 = *k;
    proof {
        lemma_store_step(&k0, &k1, -1, t as int, l0, st as int);
    }
    if get_list_item_container(&k.store, ev).is_some() {
        let ghost le = k1.store.container(ev as int)->0 as int;
        proof {
            k1.store.lemma_wf();
            assert(0 <= le < k1.store.num_lists());
            assert(k1.items_ok());
            assert(!k1.is_state_list(le));
            assert(le != l0);
            assert(k1.store.container(ev as int) == k0.store.container(ev as int));
        }
        list_remove(&mut k.store, ev);
        proof {
            let k2 = *k;
            lemma_store_step(&k1, &k2, t as int, t as int, le, ev as int);
            assert(k2.store.seq(l0) == k1.store.seq(l0));
            assert(k2.store.cursor(l0) == k1.store.cursor(l0));
            assert forall|l: int| 0 <= l < k1.store.num_lists() && l != le implies #[trigger] k2.store.seq(l)
                == k1.store.seq(l) && k2.store.cursor(l) == k1.store.cursor(l) by {
                assert(k2.store.seq(l) == k1.store.seq(l));
            }
        }
    }
    let ghost k2 = *k;
    proof {
        let kpos = position_in(k0.store.seq(l0), st);
        assert(k1.store.seq(l0) == k0.store.seq(l0).remove(kpos));
        assert(k1.store.cursor(l0) == cursor_after_remove(k0.store.cursor(l0), kpos));
        assert(k2.store.seq(l0) == k1.store.seq(l0));
        assert(k2.store.cursor(l0) == k1.store.cursor(l0));
        assert forall|l: int|
            0 <= l < k0.store.num_lists() && l != l0 && Some(l as usize) != k0.store.container(ev as int) implies
            #[trigger] k2.store.seq(l) == k0.store.seq(l) && k2.store.cursor(l) == k0.store.cursor(l) by {
            assert(k1.store.seq(l) == k0.store.seq(l));
            assert(k2.store.seq(l) == k1.store.seq(l));
        }
    }
    k.task_number = k.task_number + 1;
    let ghost k3 = *k;
    proof {
        assert(k3.inv(t as int)) by {
            assert forall|p: int| #[trigger] k3.ready(p) == k2.ready(p) by {}
            assert forall|tt: int| #[trigger] k3.st(tt) == k2.st(tt) && k3.ev(tt) == k2.ev(tt) && k3.prio(tt) == k2.prio(tt) by {}
            assert forall|ll: int| #[trigger] k3.is_state_list(ll) == k2.is_state_list(ll) by {}
            assert forall|y: int| #[trigger] k3.owner_of(y) == k2.owner_of(y) by {}
            assert forall|tt: int| 0 <= tt < k3.tasks@.len() implies #[trigger] k3.placed_ok(tt, t as int) by {
                assert(k2.placed_ok(tt, t as int));
            }
        }
    }
    if k.current_tcb == Some(t) {
        let term = k.tasks_waiting_termination;
        proof {
            assert(k3.lists_ok());
            assert(k3.placed_ok(t as int, t as int));
        }
        list_insert_end(&mut k.store, term, st);
        let ghost k4 = *k;
        proof {
            assert(k3.is_state_list(term as int));
            assert(k3.store.owner(st as int) == Some(t));
            lemma_store_step(&k3, &k4, t as int, -1, term as int, st as int);
        }
        k.deleted_tasks_waiting_clean_up = k.deleted_tasks_waiting_clean_up + 1;
        proof {
            let k5 = *k;
            assert(k5.wf()) by {
                lemma_same_structure(&k4, &k5, -1);
            }
            let kpos = position_in(k0.store.seq(l0), st);
            assert(k3.store.seq(term as int) == seq_without(&k0, term as int, l0, kpos));
            assert(k3.store.cursor(term as int) == cursor_without(&k0, term as int, l0, kpos));
            assert forall|l: int| 0 <= l < k0.store.num_lists() && l != term implies #[trigger] k5.store.seq(l)
                == k3.store.seq(l) && k5.store.cursor(l) == k3.store.cursor(l) by {
                assert(k4.store.seq(l) == k3.store.seq(l));
            }
            let sw = seq_without(&k0, term as int, l0, kpos);
            let cw = cursor_without(&k0, term as int, l0, kpos);
            assert(k5.store.container(st as int) == Some(term));
            assert(k5.store.seq(term as int) == insert_before_cursor(sw, cw, st));
            assert(k5.store.cursor(term as int) == cursor_after_insert(cw, if cw < 0 { sw.len() as int } else { cw }));
            assert(k3.store == k2.store);
            if l0 != term as int {
                assert(k5.store.seq(l0) == k3.store.seq(l0));
                assert(k5.store.cursor(l0) == k3.store.cursor(l0));
            }
            assert(k5 == (Kernel {
                store: k5.store,
                task_number: k5.task_number,
                deleted_tasks_waiting_clean_up: (k0.deleted_tasks_waiting_clean_up + 1) as UBaseType,
                ..k0
            }));
            assert(delete_running(k0, k5, t as int));
            assert(k5.task_number == k0.task_number + 1);
            assert(k5.store.container(ev as int) is None);
            assert forall|y: int| 0 <= y < k0.store.num_items() && y != st && y != ev implies #[trigger] k5.store.container(y)
                == k0.store.container(y) by {
                assert(k3.store.container(y) == k0.store.container(y));
            }
            assert forall|l: int|
                0 <= l < k0.store.num_lists() && l != l0 && l != term as int && Some(l as usize)
                    != k0.store.container(ev as int) implies #[trigger] k5.store.seq(l) == k0.store.seq(l) by {
                assert(k3.store.seq(l) == k0.store.seq(l));
            }
            if k0.store.container(ev as int) is Some {
                let le = k0.store.container(ev as int)->0 as int;
                k0.store.lemma_wf();
                assert(0 <= le < k0.store.num_lists());
                assert(k0.items_ok());
                assert(!k0.is_state_list(le));
                assert(k0.is_state_list(term as int));
                assert(le != term as int);
                assert(k5.store.seq(le) == k3.store.seq(le));
                assert(k5.store.cursor(le) == k3.store.cursor(le));
            }
            assert(delete_common(k0, k5, t as int));
        }
    } else {
        proof {
            lemma_release(&k3, t as int);
        }
        k.current_number_of_tasks = k.current_number_of_tasks - 1;
        let ghost k4 = *k;
        proof {
            lemma_same_structure(&k3, &k4, -1);
        }
        reset_next_task_unblock_time(k);
        proof {
            let k5 = *k;
            assert(k5.store == k4.store);
            assert(delete_other(k0, k5, t as int));
            assert(delete_common(k0, k5, t as int));
        }
    }
}

} // verus!
